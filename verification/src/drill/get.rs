//! What the pages of a drill session show.

use vstd::prelude::*;
use crate::db::ReviewRow;
use crate::drill::render::AnswerControls;
use crate::drill::state;
use crate::drill::state::{MutableState, Review};
use crate::drill::table;
use crate::error::{fail, Fallible};
use crate::list;
use crate::serve::bookmarks;
use crate::text;
use crate::types::card::Card;
use crate::types::card_hash;
use crate::types::card_hash::CardHash;
use crate::types::timestamp::Timestamp;

verus! {

/// What the completion page offers.
#[derive(Clone, Copy, Debug, PartialEq, Eq, Structural)]
pub enum CompletionAction {
    /// A button that stops the server.
    Shutdown,
    /// A way back to the list of collections.
    BackToCollections,
}

/// Everything a page needs beside the session itself.
pub struct RenderContext<'a> {
    pub directory: &'a str,
    pub total_cards: usize,
    pub session_started_at: Timestamp,
    pub answer_controls: AnswerControls,
    pub form_action: &'a str,
    pub file_url_prefix: &'a str,
    pub completion_action: CompletionAction,
}

/// Progress in words: how many of the cards have been graded, and how many
/// repeats there were besides.
pub open spec fn progress_words(first_graded: nat, total_cards: nat, repeats: nat) -> Seq<char> {
    let base = text::decimal(first_graded) + " of "@ + text::decimal(total_cards);
    if repeats == 0 {
        base
    } else if repeats == 1 {
        base + " (+"@ + text::decimal(repeats) + " repeat)"@
    } else {
        base + " (+"@ + text::decimal(repeats) + " repeats)"@
    }
}

/// Progress in words.
pub fn progress_text(first_graded: usize, total_cards: usize, repeats: usize) -> (result: String)
    ensures
        result@ == progress_words(first_graded as nat, total_cards as nat, repeats as nat),
{
    let graded = text::decimal_of(first_graded as u64);
    let total = text::decimal_of(total_cards as u64);
    let mut result = text::cat3(graded.as_str(), " of ", total.as_str());
    if repeats > 0 {
        let number = text::decimal_of(repeats as u64);
        result.append(" (+");
        result.append(number.as_str());
        result.append(if repeats == 1 { " repeat)" } else { " repeats)" });
    }
    result
}

/// Progress in percent. A session without cards is done.
pub open spec fn percent(done: nat, total: nat) -> nat {
    if total == 0 {
        100
    } else {
        done * 100 / total
    }
}

/// A button that submits an action.
pub struct Button {
    pub id: &'static str,
    pub value: &'static str,
    pub title: &'static str,
}

/// The texts of some buttons.
pub open spec fn button_texts(buttons: Seq<Button>) -> Seq<(Seq<char>, Seq<char>, Seq<char>)> {
    buttons.map_values(|b: Button| (b.id@, b.value@, b.title@))
}

/// The grade buttons of a setting.
pub open spec fn grades(controls: AnswerControls) -> Seq<(Seq<char>, Seq<char>, Seq<char>)> {
    match controls {
        AnswerControls::Binary => seq![
            ("forgot"@, "Forgot"@, "Mark card as forgotten."@),
            ("good"@, "Good"@, "Mark card as remembered."@),
        ],
        AnswerControls::Full => seq![
            ("forgot"@, "Forgot"@, "Mark card as forgotten. Shortcut: 1."@),
            ("hard"@, "Hard"@, "Mark card as difficult. Shortcut: 2."@),
            ("good"@, "Good"@, "Mark card as remembered well. Shortcut: 3."@),
            ("easy"@, "Easy"@, "Mark card as very easy. Shortcut: 4."@),
        ],
    }
}

/// The grade buttons of a setting.
pub fn grade_buttons(controls: AnswerControls) -> (result: Vec<Button>)
    ensures
        button_texts(result@) == grades(controls),
{
    let result = match controls {
        AnswerControls::Binary => vec![
            Button { id: "forgot", value: "Forgot", title: "Mark card as forgotten." },
            Button { id: "good", value: "Good", title: "Mark card as remembered." },
        ],
        AnswerControls::Full => vec![
            Button { id: "forgot", value: "Forgot", title: "Mark card as forgotten. Shortcut: 1." },
            Button { id: "hard", value: "Hard", title: "Mark card as difficult. Shortcut: 2." },
            Button {
                id: "good",
                value: "Good",
                title: "Mark card as remembered well. Shortcut: 3.",
            },
            Button { id: "easy", value: "Easy", title: "Mark card as very easy. Shortcut: 4." },
        ],
    };
    proof {
        assert(button_texts(result@) =~= grades(controls));
    }
    result
}

/// What the page of a running session shows.
pub struct SessionPage {
    pub undo_disabled: bool,
    pub percent_done: usize,
    pub progress_style: String,
    pub progress_label: String,
    pub card: Card,
    /// The grade buttons, once the answer is shown.
    pub grades: Option<Vec<Button>>,
}

/// Works out the page of a running session. A session whose queue is empty has
/// no such page.
pub fn render_session_page(ctx: &RenderContext, mutable: &MutableState) -> (result: Fallible<
    SessionPage,
>)
    requires
        mutable@.reviews.len() * 100 <= usize::MAX,
    ensures
        match result {
            Ok(page) => {
                let s = mutable@;
                let done = state::first_graded(s.reviews);
                &&& s.cards.len() > 0
                &&& page.card == s.cards[0]
                &&& page.undo_disabled == (s.reviews.len() == 0)
                &&& page.percent_done == percent(done, ctx.total_cards as nat)
                &&& page.progress_style@ == "width: "@ + text::decimal(page.percent_done as nat)
                    + "%;"@
                &&& page.progress_label@ == progress_words(
                    done,
                    ctx.total_cards as nat,
                    state::repeated(s.reviews) as nat,
                )
                &&& match page.grades {
                    Some(buttons) => s.reveal && button_texts(buttons@) == grades(
                        ctx.answer_controls,
                    ),
                    None => !s.reveal,
                }
            },
            Err(e) => mutable@.cards.len() == 0 && e@
                == "No cards are left in the queue. The session may already be finished."@,
        },
{
    let (done, repeats) = mutable.progress();
    let percent_done: usize = if ctx.total_cards == 0 {
        100
    } else {
        done * 100 / ctx.total_cards
    };
    if mutable.cards.len() == 0 {
        return fail("No cards are left in the queue. The session may already be finished.");
    }
    let number = text::decimal_of(percent_done as u64);
    let grades = if mutable.reveal {
        Some(grade_buttons(ctx.answer_controls))
    } else {
        None
    };
    Ok(
        SessionPage {
            undo_disabled: mutable.reviews.len() == 0,
            percent_done,
            progress_style: text::cat3("width: ", number.as_str(), "%;"),
            progress_label: progress_text(done, ctx.total_cards, repeats),
            card: mutable.cards[0].clone(),
            grades,
        },
    )
}

/// The cards of some reviews.
pub open spec fn row_hashes(rows: Seq<ReviewRow>) -> Seq<CardHash> {
    rows.map_values(|r: ReviewRow| r.data.card_hash)
}

/// The durations that are known, in order.
pub open spec fn durations(rows: Seq<ReviewRow>) -> Seq<i64>
    decreases rows.len(),
{
    if rows.len() == 0 {
        seq![]
    } else {
        match rows.last().data.duration_ms {
            Some(ms) => durations(rows.drop_last()).push(ms),
            None => durations(rows.drop_last()),
        }
    }
}

/// The two durations in the middle of all, in ascending order; one and the
/// same where their number is odd. The median lies halfway between them.
pub open spec fn middle(ms: Seq<i64>) -> Option<(i64, i64)> {
    let s = ms.sort_by(list::at_most());
    let n = ms.len();
    if n == 0 {
        None
    } else if n % 2 == 1 {
        Some((s[n as int / 2], s[n as int / 2]))
    } else {
        Some((s[n as int / 2 - 1], s[n as int / 2]))
    }
}

/// The review that took longest; the last of them where several did.
pub open spec fn slowest(rows: Seq<ReviewRow>) -> Option<(CardHash, i64)>
    decreases rows.len(),
{
    if rows.len() == 0 {
        None
    } else {
        let rest = slowest(rows.drop_last());
        match rows.last().data.duration_ms {
            Some(ms) => match rest {
                Some((_, best)) => if ms >= best {
                    Some((rows.last().data.card_hash, ms))
                } else {
                    rest
                },
                None => Some((rows.last().data.card_hash, ms)),
            },
            None => rest,
        }
    }
}

/// The last review of a card in a session, by its place; -1 if there is none.
pub open spec fn last_review(reviews: Seq<Review>, hash: CardHash) -> int
    decreases reviews.len(),
{
    if reviews.len() == 0 {
        -1
    } else if reviews.last().card.id() == hash {
        reviews.len() - 1
    } else {
        last_review(reviews.drop_last(), hash)
    }
}

/// What stands for a card among the statistics: its preview, or its hash where
/// the session does not hold it.
pub open spec fn card_label(reviews: Seq<Review>, hash: CardHash) -> Seq<char> {
    let i = last_review(reviews, hash);
    if i >= 0 {
        bookmarks::preview(bookmarks::front(reviews[i].card.asks()))
    } else {
        card_hash::hash_text(hash)
    }
}

fn label_of(reviews: &Vec<Review>, hash: CardHash) -> (result: String)
    ensures
        result@ == card_label(reviews@, hash),
{
    let mut i: usize = reviews.len();
    proof {
        assert(reviews@.take(i as int) == reviews@);
    }
    while i > 0
        invariant
            i <= reviews@.len(),
            last_review(reviews@.take(i as int), hash) == last_review(reviews@, hash),
        decreases i,
    {
        proof {
            assert(reviews@.take(i as int).drop_last() == reviews@.take(i - 1));
            assert(reviews@.take(i as int).last() == reviews@[i - 1]);
        }
        if reviews[i - 1].card.hash() == hash {
            return bookmarks::card_preview(reviews[i - 1].card.content());
        }
        i -= 1;
    }
    hash.to_hex()
}

/// The whole seconds from `start` to `end`, counted toward zero.
pub open spec fn seconds(start: Timestamp, end: Timestamp) -> int {
    let ms = end.millis - start.millis;
    if ms >= 0 {
        ms / 1000
    } else {
        -((-ms) / 1000)
    }
}

fn seconds_between(start: Timestamp, end: Timestamp) -> (result: i64)
    ensures
        result == seconds(start, end),
{
    let ms: i128 = end.millis as i128 - start.millis as i128;
    if ms >= 0 {
        (ms / 1000) as i64
    } else {
        let whole: i128 = (-ms) / 1000;
        (-whole) as i64
    }
}

/// A duration in words: in minutes from the first full one on, else in
/// seconds.
pub open spec fn duration_words(seconds: int) -> Seq<char> {
    if seconds >= 60 {
        text::decimal((seconds / 60) as nat) + " min"@
    } else {
        text::signed_decimal(seconds) + " s"@
    }
}

/// A duration in words.
pub fn duration_text(seconds: i64) -> (result: String)
    ensures
        result@ == duration_words(seconds as int),
{
    if seconds >= 60 {
        let minutes = text::decimal_of((seconds / 60) as u64);
        text::cat2(minutes.as_str(), " min")
    } else {
        let number = text::signed_decimal_of(seconds);
        text::cat2(number.as_str(), " s")
    }
}

/// The line that sums a session up. `pace` is its pace in seconds per card,
/// rounded.
pub open spec fn summary(distinct_cards: nat, seconds: int, pace: int) -> Seq<char> {
    "Done \u{2014} "@ + text::decimal(distinct_cards) + (if distinct_cards == 1 {
        " card in "@
    } else {
        " cards in "@
    }) + duration_words(seconds) + " ("@ + text::signed_decimal(pace) + " s/card)."@
}

/// The line that sums a session up.
pub fn summary_line(distinct_cards: usize, seconds: i64, pace: i64) -> (result: String)
    ensures
        result@ == summary(distinct_cards as nat, seconds as int, pace as int),
{
    let cards = text::decimal_of(distinct_cards as u64);
    let duration = duration_text(seconds);
    let pace = text::signed_decimal_of(pace);
    text::cat7(
        "Done \u{2014} ",
        cards.as_str(),
        if distinct_cards == 1 { " card in " } else { " cards in " },
        duration.as_str(),
        " (",
        pace.as_str(),
        " s/card).",
    )
}

/// The statistics of a finished session.
pub struct CompletionStats {
    pub total_cards: usize,
    pub distinct_cards: usize,
    pub total_reviews: usize,
    pub started_at: Timestamp,
    pub finished_at: Timestamp,
    pub duration_s: i64,
    /// The durations, in milliseconds, halfway between which the median lies.
    pub middle_ms: Option<(i64, i64)>,
    /// The slowest card, with how long it took in milliseconds.
    pub slowest: Option<(String, i64)>,
}

/// What the page of a finished session shows.
pub enum CompletionPage {
    /// Nothing was reviewed.
    Empty,
    Stats(CompletionStats),
}

/// Whether `stats` are the statistics of a session whose reviews in the
/// database are `rows`.
pub open spec fn describes(
    ctx: &RenderContext,
    reviews: Seq<Review>,
    finished_at: Timestamp,
    rows: Seq<ReviewRow>,
    stats: CompletionStats,
) -> bool {
    &&& stats.total_cards == ctx.total_cards
    &&& stats.distinct_cards == row_hashes(rows).to_set().len()
    &&& stats.total_reviews == rows.len()
    &&& stats.started_at == ctx.session_started_at
    &&& stats.finished_at == finished_at
    &&& stats.duration_s == seconds(ctx.session_started_at, finished_at)
    &&& stats.middle_ms == middle(durations(rows))
    &&& match slowest(rows) {
        Some((hash, ms)) => stats.slowest matches Some((label, n)) && label@ == card_label(
            reviews,
            hash,
        ) && n == ms,
        None => stats.slowest is None,
    }
}

fn middle_of(ms: &Vec<i64>) -> (result: Option<(i64, i64)>)
    ensures
        result == middle(ms@),
{
    if ms.len() == 0 {
        return None;
    }
    let s = list::sorted(ms);
    let n: usize = s.len();
    if n % 2 == 1 {
        Some((s[n / 2], s[n / 2]))
    } else {
        Some((s[n / 2 - 1], s[n / 2]))
    }
}

/// Works out the page of a finished session from the reviews that the database
/// holds of it, without those that were undone. Repeats count toward the
/// reviews but not toward the cards.
pub fn render_completion_page(
    ctx: &RenderContext,
    mutable: &MutableState,
    rows: &Vec<ReviewRow>,
) -> (result: Fallible<CompletionPage>)
    ensures
        match result {
            Ok(CompletionPage::Empty) => mutable@.reviews.len() == 0,
            Ok(CompletionPage::Stats(stats)) => {
                &&& mutable@.reviews.len() > 0
                &&& mutable@.finished_at matches Some(at) && describes(
                    ctx,
                    mutable@.reviews,
                    at,
                    rows@,
                    stats,
                )
            },
            Err(e) => mutable@.reviews.len() > 0 && mutable@.finished_at is None && e@
                == "The completion page was requested before the session finished."@,
        },
{
    if mutable.reviews.len() == 0 {
        return Ok(CompletionPage::Empty);
    }
    let finished_at = match mutable.finished_at {
        Some(at) => at,
        None => {
            return fail("The completion page was requested before the session finished.");
        },
    };
    let mut hashes: Vec<CardHash> = Vec::new();
    let mut times: Vec<i64> = Vec::new();
    let mut best: Option<(CardHash, i64)> = None;
    let mut i: usize = 0;
    while i < rows.len()
        invariant
            i <= rows@.len(),
            hashes@ == row_hashes(rows@).take(i as int),
            times@ == durations(rows@.take(i as int)),
            best == slowest(rows@.take(i as int)),
        decreases rows@.len() - i,
    {
        let row = rows[i];
        proof {
            assert(rows@.take(i + 1).drop_last() == rows@.take(i as int));
            assert(rows@.take(i + 1).last() == row);
        }
        hashes.push(row.data.card_hash);
        if let Some(ms) = row.data.duration_ms {
            times.push(ms);
            let slower = match best {
                Some((_, longest)) => ms >= longest,
                None => true,
            };
            if slower {
                best = Some((row.data.card_hash, ms));
            }
        }
        i += 1;
        proof {
            assert(hashes@ =~= row_hashes(rows@).take(i as int));
        }
    }
    proof {
        assert(rows@.take(i as int) == rows@);
        assert(row_hashes(rows@).take(i as int) == row_hashes(rows@));
    }
    let slowest = match best {
        Some((hash, ms)) => Some((label_of(&mutable.reviews, hash), ms)),
        None => None,
    };
    Ok(
        CompletionPage::Stats(
            CompletionStats {
                total_cards: ctx.total_cards,
                distinct_cards: table::distinct(&hashes),
                total_reviews: rows.len(),
                started_at: ctx.session_started_at,
                finished_at,
                duration_s: seconds_between(ctx.session_started_at, finished_at),
                middle_ms: middle_of(&times),
                slowest,
            },
        ),
    )
}

/// No review of the session took longer than the one that is shown as the
/// slowest, and one of its reviews took as long.
pub proof fn law_slowest_is_the_maximum(rows: Seq<ReviewRow>)
    ensures
        slowest(rows) is None <==> forall|i: int|
            0 <= i < rows.len() ==> (#[trigger] rows[i]).data.duration_ms is None,
        slowest(rows) matches Some((hash, ms)) ==> {
            &&& forall|i: int|
                0 <= i < rows.len() ==> ((#[trigger] rows[i]).data.duration_ms matches Some(d)
                    ==> d <= ms)
            &&& exists|i: int|
                0 <= i < rows.len() && (#[trigger] rows[i]).data.card_hash == hash
                    && rows[i].data.duration_ms == Some(ms)
        },
    decreases rows.len(),
{
    if rows.len() > 0 {
        let rest = rows.drop_last();
        law_slowest_is_the_maximum(rest);
        assert(forall|i: int| 0 <= i < rest.len() ==> rest[i] == #[trigger] rows[i]);
        assert(rows[rows.len() - 1] == rows.last());
        if slowest(rows) is None {
            assert forall|i: int| 0 <= i < rows.len() implies (
            #[trigger] rows[i]).data.duration_ms is None by {
                if i < rest.len() {
                    assert(rest[i].data.duration_ms is None);
                }
            }
        } else if slowest(rest) is Some {
            let k = choose|i: int|
                0 <= i < rest.len() && (#[trigger] rest[i]).data.duration_ms is Some;
            assert(rows[k].data.duration_ms is Some);
        }
        if let Some((hash, ms)) = slowest(rows) {
            assert forall|i: int| 0 <= i < rows.len() implies ((
            #[trigger] rows[i]).data.duration_ms matches Some(d) ==> d <= ms) by {
                if i < rest.len() {
                    assert(rest[i] == rows[i]);
                }
            }
            if slowest(rows) == slowest(rest) {
                let i = choose|i: int|
                    0 <= i < rest.len() && (#[trigger] rest[i]).data.card_hash == hash
                        && rest[i].data.duration_ms == Some(ms);
                assert(rows[i].data.card_hash == hash);
            } else {
                assert(rows[rows.len() - 1].data.card_hash == hash);
            }
        }
    }
}

/// The percentage is rounded down: it starts at nothing, is whole when every
/// card has been graded, and never runs ahead. A session without cards is done.
pub proof fn law_percent_is_rounded_down(done: nat, total: nat)
    ensures
        total > 0 ==> percent(done, total) * total <= done * 100 < (percent(done, total) + 1)
            * total,
        total > 0 && done == 0 ==> percent(done, total) == 0,
        done == total ==> percent(done, total) == 100,
        total == 0 ==> percent(done, total) == 100,
{
    if total > 0 {
        let n = (done * 100) as int;
        let t = total as int;
        vstd::arithmetic::div_mod::lemma_fundamental_div_mod(n, t);
        vstd::arithmetic::div_mod::lemma_mod_bound(n, t);
        let q = n / t;
        assert(q * t <= n < (q + 1) * t) by (nonlinear_arith)
            requires
                n == t * q + n % t,
                0 <= n % t < t,
        ;
        if done == total {
            assert(q == 100) by (nonlinear_arith)
                requires
                    q * t <= 100 * t < (q + 1) * t,
                    t > 0,
            ;
        }
        if done == 0 {
            assert(q == 0) by (nonlinear_arith)
                requires
                    q * t <= 0 < (q + 1) * t,
                    t > 0,
            ;
        }
    }
}

/// Progress tells how many cards are done, then how many there are, and repeats
/// only if there were any.
pub proof fn law_progress_tells_done_and_total(done: nat, total: nat, repeats: nat)
    ensures
        ({
            let base = text::decimal(done) + " of "@ + text::decimal(total);
            let words = progress_words(done, total, repeats);
            &&& text::starts_with(words, base)
            &&& repeats == 0 ==> words == base
            &&& repeats > 0 ==> text::starts_with(
                words,
                base + " (+"@ + text::decimal(repeats) + " repeat"@,
            )
            &&& repeats > 1 <==> text::ends_with(words, " repeats)"@)
        }),
{
    let base = text::decimal(done) + " of "@ + text::decimal(total);
    let words = progress_words(done, total, repeats);
    let more = base + " (+"@ + text::decimal(repeats);
    reveal_strlit(" (+");
    reveal_strlit(" repeat");
    reveal_strlit(" repeat)");
    reveal_strlit(" repeats)");
    assert(words.subrange(0, base.len() as int) =~= base);
    if repeats > 0 {
        let front = more + " repeat"@;
        assert(words.subrange(0, front.len() as int) =~= front);
    }
    if repeats > 1 {
        assert(words.subrange(words.len() - 9, words.len() as int) =~= " repeats)"@);
    }
    if text::ends_with(words, " repeats)"@) {
        assert(words[words.len() - 2] == words.subrange(words.len() - 9, words.len() as int)[7]);
        assert(words[words.len() - 1] == words.subrange(words.len() - 9, words.len() as int)[8]);
        if repeats == 0 {
            text::lemma_decimal_digits(total);
            let tail = text::decimal(total);
            assert(words.last() == tail.last());
        }
    }
}

/// The simple setting has two buttons, for what was forgotten and for what was
/// not; the full one has one for each grade, from worst to best. What a button
/// sends is the name of its grade.
pub proof fn law_buttons_are_the_grades(controls: AnswerControls)
    ensures
        ({
            let names = grades(controls).map_values(
                |b: (Seq<char>, Seq<char>, Seq<char>)| b.1,
            );
            &&& controls == AnswerControls::Binary ==> names == seq!["Forgot"@, "Good"@]
            &&& controls == AnswerControls::Full ==> names == seq![
                "Forgot"@,
                "Hard"@,
                "Good"@,
                "Easy"@,
            ]
        }),
        forall|i: int|
            0 <= i < grades(controls).len() ==> text::lowercase((#[trigger] grades(controls)[i]).1)
                == grades(controls)[i].0,
{
    let names = grades(controls).map_values(|b: (Seq<char>, Seq<char>, Seq<char>)| b.1);
    if controls == AnswerControls::Binary {
        assert(names =~= seq!["Forgot"@, "Good"@]);
    } else {
        assert(names =~= seq!["Forgot"@, "Hard"@, "Good"@, "Easy"@]);
    }
    reveal_strlit("Forgot");
    reveal_strlit("Hard");
    reveal_strlit("Good");
    reveal_strlit("Easy");
    reveal_strlit("forgot");
    reveal_strlit("hard");
    reveal_strlit("good");
    reveal_strlit("easy");
    assert(text::lowercase("Forgot"@) =~= "forgot"@);
    assert(text::lowercase("Hard"@) =~= "hard"@);
    assert(text::lowercase("Good"@) =~= "good"@);
    assert(text::lowercase("Easy"@) =~= "easy"@);
}

/// The durations are those of the reviews that have one, in order.
pub proof fn law_known_durations_are_taken(rows: Seq<ReviewRow>)
    ensures
        durations(rows) == list::keep(
            rows,
            |r: ReviewRow| r.data.duration_ms is Some,
        ).map_values(|r: ReviewRow| r.data.duration_ms->0),
    decreases rows.len(),
{
    let p = |r: ReviewRow| r.data.duration_ms is Some;
    let f = |r: ReviewRow| r.data.duration_ms->0;
    if rows.len() > 0 {
        law_known_durations_are_taken(rows.drop_last());
    }
    assert(durations(rows) =~= list::keep(rows, p).map_values(f));
}

/// The two durations of the middle are durations of the session, in order, and
/// fewer than half of all lie below them, and fewer than half above.
pub proof fn law_the_middle_halves_the_durations(ms: Seq<i64>)
    ensures
        middle(ms) is None <==> ms.len() == 0,
        middle(ms) matches Some((low, high)) ==> {
            &&& ms.contains(low) && ms.contains(high)
            &&& low <= high
            &&& ms.len() % 2 == 1 ==> low == high
            &&& list::keep(ms, |x: i64| x < low).len() <= (ms.len() - 1) / 2
            &&& list::keep(ms, |x: i64| x > high).len() <= (ms.len() - 1) / 2
        },
{
    broadcast use vstd::seq_lib::group_to_multiset_ensures;

    if ms.len() > 0 {
        let s = ms.sort_by(list::at_most());
        ms.lemma_sort_by_ensures(list::at_most());
        let n = ms.len() as int;
        let (low, high) = middle(ms)->0;
        assert(s.to_multiset().len() == s.len());
        assert(ms.to_multiset().len() == n);
        let a = if n % 2 == 1 {
            n / 2
        } else {
            n / 2 - 1
        };
        let b = n / 2;
        assert forall|i: int, j: int| 0 <= i <= j < n implies s[i] <= s[j] by {
            if i < j {
                assert(list::at_most()(s[i], s[j]));
            }
        }
        assert(s.contains(s[a]) && s.contains(s[b]));
        assert(ms.to_multiset().count(s[a]) > 0);
        assert(ms.to_multiset().count(s[b]) > 0);
        let below = |x: i64| x < low;
        let above = |x: i64| x > high;
        list::lemma_keep_in_any_order(ms, s, below);
        list::lemma_keep_in_any_order(ms, s, above);
        assert(s.take(a) + s.skip(a) =~= s);
        list::lemma_keep_append(s.take(a), s.skip(a), below);
        list::lemma_keep_nothing(s.skip(a), below);
        list::lemma_keep(s.take(a), below);
        assert(s.take(b + 1) + s.skip(b + 1) =~= s);
        list::lemma_keep_append(s.take(b + 1), s.skip(b + 1), above);
        list::lemma_keep_nothing(s.take(b + 1), above);
        list::lemma_keep(s.skip(b + 1), above);
    }
}

/// Where several reviews took longest, the last of them is shown.
pub proof fn law_the_last_of_the_slowest_is_shown(rows: Seq<ReviewRow>)
    ensures
        slowest(rows) matches Some((hash, ms)) ==> exists|i: int|
            {
                &&& 0 <= i < rows.len()
                &&& (#[trigger] rows[i]).data.card_hash == hash
                &&& rows[i].data.duration_ms == Some(ms)
                &&& forall|j: int|
                    i < j < rows.len() ==> ((#[trigger] rows[j]).data.duration_ms matches Some(d)
                        ==> d < ms)
            },
    decreases rows.len(),
{
    if rows.len() > 0 {
        let rest = rows.drop_last();
        let n = rows.len() - 1;
        law_the_last_of_the_slowest_is_shown(rest);
        if let Some((hash, ms)) = slowest(rows) {
            if slowest(rest) == slowest(rows) && !(rows.last().data.duration_ms matches Some(d)
                && d >= ms) {
                let i = choose|i: int|
                    {
                        &&& 0 <= i < rest.len()
                        &&& (#[trigger] rest[i]).data.card_hash == hash
                        &&& rest[i].data.duration_ms == Some(ms)
                        &&& forall|j: int|
                            i < j < rest.len() ==> ((
                            #[trigger] rest[j]).data.duration_ms matches Some(d) ==> d < ms)
                    };
                assert(rows[i] == rest[i]);
                assert forall|j: int| i < j < rows.len() implies ((
                #[trigger] rows[j]).data.duration_ms matches Some(d) ==> d < ms) by {
                    if j < n {
                        assert(rows[j] == rest[j]);
                    }
                }
            } else {
                assert(rows[n].data.card_hash == hash);
            }
        }
    }
}

/// The review that a card is shown by is its last, and there is none only if it
/// was not reviewed.
pub proof fn law_cards_are_shown_by_their_last_review(reviews: Seq<Review>, hash: CardHash)
    ensures
        ({
            let i = last_review(reviews, hash);
            &&& -1 <= i < reviews.len()
            &&& i >= 0 ==> reviews[i].card.id() == hash
            &&& forall|j: int|
                i < j < reviews.len() ==> (#[trigger] reviews[j]).card.id() != hash
        }),
    decreases reviews.len(),
{
    if reviews.len() > 0 {
        let rest = reviews.drop_last();
        law_cards_are_shown_by_their_last_review(rest, hash);
        assert forall|j: int|
            last_review(reviews, hash) < j < reviews.len() implies (
        #[trigger] reviews[j]).card.id() != hash by {
            if j < rest.len() {
                assert(rest[j] == reviews[j]);
            }
        }
    }
}

/// A duration is counted in whole seconds, the same there and back.
pub proof fn law_seconds_are_whole(start: Timestamp, end: Timestamp)
    ensures
        seconds(end, start) == -seconds(start, end),
        end.millis >= start.millis ==> seconds(start, end) * 1000 <= end.millis - start.millis
            < (seconds(start, end) + 1) * 1000,
{
}

/// A duration is told in minutes from the first full one on, rounded down, and
/// before that in seconds.
pub proof fn law_durations_are_told_in_minutes(seconds: int, minutes: nat)
    ensures
        0 <= seconds < 60 ==> duration_words(seconds) == text::decimal(seconds as nat) + " s"@,
        minutes > 0 && minutes * 60 <= seconds < minutes * 60 + 60 ==> duration_words(seconds)
            == text::decimal(minutes) + " min"@,
{
}

/// The statistics of a session say what their names say.
pub proof fn law_statistics_say_what_they_are(
    ctx: &RenderContext,
    reviews: Seq<Review>,
    finished_at: Timestamp,
    rows: Seq<ReviewRow>,
    stats: CompletionStats,
)
    requires
        describes(ctx, reviews, finished_at, rows, stats),
    ensures
        stats.total_cards == ctx.total_cards,
        stats.total_reviews == rows.len(),
        stats.distinct_cards == rows.map_values(
            |r: ReviewRow| r.data.card_hash,
        ).to_set().len(),
        stats.started_at == ctx.session_started_at,
        stats.finished_at == finished_at,
        finished_at.millis >= ctx.session_started_at.millis ==> stats.duration_s * 1000
            <= finished_at.millis - ctx.session_started_at.millis < (stats.duration_s + 1) * 1000,
        stats.slowest matches Some((_, n)) ==> forall|i: int|
            0 <= i < rows.len() ==> ((#[trigger] rows[i]).data.duration_ms matches Some(d) ==> d
                <= n),
{
    law_seconds_are_whole(ctx.session_started_at, finished_at);
    law_slowest_is_the_maximum(rows);
    assert(row_hashes(rows) =~= rows.map_values(|r: ReviewRow| r.data.card_hash));
}

/// A finished session is told with how many cards it had, one card as one.
pub proof fn law_finished_sessions_are_told_with_their_cards(n: nat, seconds: int, pace: int)
    ensures
        text::starts_with(
            summary(n, seconds, pace),
            "Done \u{2014} "@ + text::decimal(n) + (if n == 1 {
                " card in "@
            } else {
                " cards in "@
            }) + duration_words(seconds),
        ),
        text::ends_with(
            summary(n, seconds, pace),
            " ("@ + text::signed_decimal(pace) + " s/card)."@,
        ),
{
    let head = "Done \u{2014} "@ + text::decimal(n) + (if n == 1 {
        " card in "@
    } else {
        " cards in "@
    }) + duration_words(seconds);
    let tail = " ("@ + text::signed_decimal(pace) + " s/card)."@;
    assert(summary(n, seconds, pace) =~= head + tail);
    text::law_beginnings_and_ends_are_found(head, tail, tail);
}

} // verus!
