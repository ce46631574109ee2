//! What the fake provider does.

use crate::fake::{delay, fake_plan, fake_report, in_interval, overlap, ApplyRecord};
use crate::field_value::ResolvedFieldValueView;
use crate::strmap::lookup;
use crate::text::digits_value;
use crate::text_laws::{
    all_digits, law_digits_count_by_place, law_numbers_are_read, lemma_digits_not_negative,
};
use vstd::prelude::*;

verus! {

/// Two applications that take time overlap exactly where some moment lies in both.
pub proof fn law_overlap_is_a_common_moment(a: ApplyRecord, b: ApplyRecord)
    requires
        a.started_at < a.finished_at,
        b.started_at < b.finished_at,
    ensures
        overlap(a, b) <==> exists|t: u64| #[trigger] in_interval(a, t) && in_interval(b, t),
{
    if overlap(a, b) {
        let t = if a.started_at < b.started_at {
            b.started_at
        } else {
            a.started_at
        };
        assert(in_interval(a, t) && in_interval(b, t));
    }
}

/// Applying takes as many milliseconds as the field for it says, managed or initial; without a
/// number there it takes none.
pub proof fn law_delay_is_what_the_field_says(
    config: Seq<(Seq<char>, ResolvedFieldValueView)>,
    digits: Seq<char>,
)
    ensures
        (lookup(config, "delayMs"@) == Some(ResolvedFieldValueView::Managed(digits)) || lookup(
            config,
            "delayMs"@,
        ) == Some(ResolvedFieldValueView::Initial(digits))) && digits.len() > 0 && all_digits(digits)
            && digits_value(digits)->0 <= u64::MAX ==> delay(config) == digits_value(digits)->0,
        lookup(config, "delayMs"@) is None ==> delay(config) == 0,
        lookup(config, "delayMs"@) == Some(ResolvedFieldValueView::Unmanaged) ==> delay(config) == 0,
{
    law_numbers_are_read(digits, digits);
    law_digits_count_by_place(digits, '0');
    lemma_digits_not_negative(digits);
}

/// The fake provider reports as created exactly what its plan adds.
pub proof fn law_fake_report_is_that_of_the_plan()
    ensures
        fake_report().created.len() == fake_plan().changes.len(),
        forall|i: int|
            0 <= i < fake_plan().changes.len() ==> (#[trigger] fake_plan().changes[i]) is Add
                && fake_plan().changes[i]->Add_resource_id == fake_report().created[i],
        fake_report().modified.len() == 0,
        fake_report().deleted.len() == 0,
{
}

} // verus!
