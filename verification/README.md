# hashcards-web

A web server for plain text spaced repetition: cards are written in Markdown
files, drilled in the browser, and scheduled from the grades they get.

- `src/` is the library. It holds the rules of the server: reading card files,
  the queue and the grades of a session, collections and their owners, custom
  decks, notes from other servers, editing cards in place, logins, the
  configuration file. Every function states in `requires` and `ensures` what it
  does, and Verus proves it. Functions named `law_...` state what holds of
  several of them together.
- `app/` is the server around it: HTTP, the databases, the file system, the
  provider of logins, pages, and the scheduling of cards, which is computed in
  floating point.
- `tests/` runs the library on examples.

What the library has from other crates stands behind small functions whose
contracts are taken on trust; each says in its documentation which function it
calls and what it claims of it.
