//! The visibility filter over directory entry names.

use vstd::prelude::*;
use vstd::string::*;

verus! {

/// A hidden entry is one whose name begins with `.`.
pub open spec fn is_hidden_name(name: Seq<char>) -> bool {
    name.len() > 0 && name[0] == '.'
}

/// Whether an entry named `name` is listed.
pub open spec fn is_listed(name: Seq<char>, show_all: bool) -> bool {
    show_all || !is_hidden_name(name)
}

/// The visibility test under `show_all`, as a predicate.
pub open spec fn listed_pred(show_all: bool) -> spec_fn(Seq<char>) -> bool {
    |n: Seq<char>| is_listed(n, show_all)
}

/// The names that are listed, in their original order.
pub open spec fn listed(names: Seq<Seq<char>>, show_all: bool) -> Seq<Seq<char>> {
    names.filter(listed_pred(show_all))
}

/// Whether `name` denotes a hidden entry.
pub fn is_hidden(name: &String) -> (r: bool)
    ensures
        r == is_hidden_name(name@),
{
    let len = name.as_str().unicode_len();
    if len == 0 {
        false
    } else {
        name.as_str().get_char(0) == '.'
    }
}

/// Keeps the names that are listed under `show_all`, in their original order.
pub fn filter_entries(names: &Vec<String>, show_all: bool) -> (r: Vec<String>)
    ensures
        r.deep_view() == listed(names.deep_view(), show_all),
        forall|e: Seq<char>|
            r.deep_view().contains(e) <==> (names.deep_view().contains(e) && is_listed(
                e,
                show_all,
            )),
{
    let ghost all = names.deep_view();

    let mut out: Vec<String> = Vec::new();
    let mut i: usize = 0;
    while i < names.len()
        invariant
            i <= names.len(),
            all == names.deep_view(),
            out.deep_view() == all.take(i as int).filter(listed_pred(show_all)),
        decreases names.len() - i,
    {
        let name = &names[i];
        let keep = show_all || !is_hidden(name);
        assert(all.take(i as int + 1).drop_last() =~= all.take(i as int));
        assert(all.take(i as int + 1).last() == name@);
        assert(listed_pred(show_all)(name@) == keep);
        reveal_with_fuel(Seq::filter, 1);
        if keep {
            let ghost before = out.deep_view();
            out.push(name.clone());
            assert(out.deep_view() =~= before.push(name@));
        }
        i = i + 1;
    }
    assert(all.take(names.len() as int) =~= all);
    proof {
        assert forall|e: Seq<char>|
            out.deep_view().contains(e) <==> (all.contains(e) && is_listed(e, show_all)) by {
            if out.deep_view().contains(e) {
                all.lemma_filter_contains_rev(listed_pred(show_all), e);
                let j = choose|j: int| 0 <= j < out.deep_view().len() && out.deep_view()[j] == e;
                all.lemma_filter_pred(listed_pred(show_all), j);
            }
            if all.contains(e) && is_listed(e, show_all) {
                let j = choose|j: int| 0 <= j < all.len() && all[j] == e;
                all.lemma_filter_contains(listed_pred(show_all), j);
            }
        }
    }
    out
}

} // verus!
