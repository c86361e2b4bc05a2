//! The check of a collection.

use vstd::prelude::*;
use crate::text;

verus! {

/// A card that occurs a second time, with the places of both.
pub struct DuplicateCard {
    pub first_file: String,
    pub first_line: usize,
    pub second_file: String,
    pub second_line: usize,
}

/// What is said of a card that occurs twice.
pub open spec fn duplicate_text(d: DuplicateCard) -> Seq<char> {
    "Duplicate card at "@ + d.second_file@ + ":"@ + text::decimal(d.second_line as nat)
        + " (first at "@ + d.first_file@ + ":"@ + text::decimal(d.first_line as nat) + ")"@
}

impl DuplicateCard {
    /// What is said of the card.
    pub fn to_text(&self) -> (result: String)
        ensures
            result@ == duplicate_text(*self),
    {
        let first = text::decimal_of(self.first_line as u64);
        let second = text::decimal_of(self.second_line as u64);
        let mut result = text::cat7(
            "Duplicate card at ",
            self.second_file.as_str(),
            ":",
            second.as_str(),
            " (first at ",
            self.first_file.as_str(),
            ":",
        );
        result.append(first.as_str());
        result.append(")");
        result
    }
}

/// One warning for each card that occurs twice.
pub fn duplicate_report(duplicates: &Vec<DuplicateCard>) -> (result: Vec<String>)
    ensures
        text::views(result@) == duplicates@.map_values(
            |d: DuplicateCard| "warning: "@ + duplicate_text(d),
        ),
{
    let mut report: Vec<String> = Vec::new();
    let mut i: usize = 0;
    while i < duplicates.len()
        invariant
            i <= duplicates@.len(),
            report@.len() == i,
            forall|k: int|
                0 <= k < i ==> (#[trigger] report@[k])@ == "warning: "@ + duplicate_text(
                    duplicates@[k],
                ),
        decreases duplicates@.len() - i,
    {
        let words = duplicates[i].to_text();
        report.push(text::cat2("warning: ", words.as_str()));
        i += 1;
    }
    proof {
        assert(text::views(report@) =~= duplicates@.map_values(
            |d: DuplicateCard| "warning: "@ + duplicate_text(d),
        ));
    }
    report
}

/// A duplicate is told at its own place, and then where the card stands first.
pub proof fn law_duplicates_are_told_at_their_place(d: DuplicateCard)
    ensures
        text::starts_with(
            duplicate_text(d),
            "Duplicate card at "@ + d.second_file@ + ":"@ + text::decimal(d.second_line as nat),
        ),
        text::ends_with(
            duplicate_text(d),
            d.first_file@ + ":"@ + text::decimal(d.first_line as nat) + ")"@,
        ),
{
    let a = "Duplicate card at "@ + d.second_file@ + ":"@ + text::decimal(d.second_line as nat);
    let b = d.first_file@ + ":"@ + text::decimal(d.first_line as nat) + ")"@;
    let middle = " (first at "@;
    assert(duplicate_text(d) =~= a + (middle + b));
    assert(duplicate_text(d) =~= (a + middle) + b);
    text::law_beginnings_and_ends_are_found(a, middle + b, a);
    text::law_beginnings_and_ends_are_found(a + middle, b, b);
}

} // verus!
