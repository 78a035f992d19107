//! Checks on the completion lists of an editor's language service.
use vstd::prelude::*;

verus! {

/// One proposed completion.
pub struct CompletionItem {
    /// The text shown for the completion.
    pub label: String,
}

/// The completions proposed at one position.
pub struct CompletionList {
    /// The proposed completions, in any order.
    pub items: Vec<CompletionItem>,
}

/// No two items carry the same label.
pub open spec fn labels_distinct(items: Seq<CompletionItem>) -> bool {
    forall|i: int, j: int| 0 <= i < j < items.len() ==> items[i].label@ != items[j].label@
}

/// Checks that no label is proposed twice. Returns the labels that are, one
/// entry for each later occurrence of a label seen before.
pub fn assert_no_duplicates(actual_completions: CompletionList) -> (r: Result<(), Vec<String>>)
    ensures
        r is Ok <==> labels_distinct(actual_completions.items@),
        r matches Err(dups) ==> dups.len() > 0 && forall|t: int| 0 <= t < dups.len()
            ==> exists|i: int, j: int| 0 <= i < j < actual_completions.items.len()
                && #[trigger] dups@[t]@ == actual_completions.items@[i].label@
                && actual_completions.items@[i].label@ == actual_completions.items@[j].label@,
{
    let items = &actual_completions.items;
    let n = items.len();
    let mut dups: Vec<String> = Vec::new();
    let mut j: usize = 0;
    while j < n
        invariant
            j <= n,
            n == items.len(),
            dups.len() == 0 <==> labels_distinct(items@.take(j as int)),
            forall|t: int| 0 <= t < dups.len() ==> exists|a: int, b: int| 0 <= a < b < n
                && #[trigger] dups@[t]@ == items@[a].label@ && items@[a].label@ == items@[b].label@,
        decreases n - j,
    {
        let ghost before = dups.len();
        let mut seen = false;
        let mut i: usize = 0;
        while i < j
            invariant
                i <= j,
                j < n,
                n == items.len(),
                seen <==> exists|a: int| 0 <= a < i && items@[a].label@ == items@[j as int].label@,
            decreases j - i,
        {
            if items[i].label == items[j].label {
                seen = true;
            }
            i = i + 1;
        }
        if seen {
            let ghost a = choose|a: int| 0 <= a < j && items@[a].label@ == items@[j as int].label@;
            dups.push(items[j].label.clone());
            proof {
                assert(dups@[before as int]@ == items@[a].label@);
            }
        }
        proof {
            if !seen && labels_distinct(items@.take(j as int)) {
                assert forall|a: int, b: int| 0 <= a < b < j + 1 implies
                    #[trigger] items@.take(j + 1)[a].label@ != #[trigger] items@.take(j + 1)[b].label@ by {
                    assert(items@.take(j + 1)[a] == items@[a]);
                    assert(items@.take(j + 1)[b] == items@[b]);
                    if b < j {
                        assert(items@.take(j as int)[a] == items@[a]);
                        assert(items@.take(j as int)[b] == items@[b]);
                    }
                }
            }
            if !labels_distinct(items@.take(j as int)) {
                let (a, b) = choose|a: int, b: int| 0 <= a < b < j
                    && items@.take(j as int)[a].label@ == items@.take(j as int)[b].label@;
                assert(items@.take(j + 1)[a] == items@.take(j as int)[a]);
                assert(items@.take(j + 1)[b] == items@.take(j as int)[b]);
            }
            if seen {
                let a = choose|a: int| 0 <= a < j && items@[a].label@ == items@[j as int].label@;
                assert(items@.take(j + 1)[a] == items@[a]);
                assert(items@.take(j + 1)[j as int] == items@[j as int]);
            }
        }
        j = j + 1;
    }
    proof {
        assert(items@.take(n as int) == items@);
    }
    if dups.len() == 0 {
        Ok(())
    } else {
        Err(dups)
    }
}

} // verus!
