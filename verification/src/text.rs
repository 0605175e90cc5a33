//! Joining text fragments with a separator, as the echoing tool prints its
//! arguments.

use vstd::prelude::*;
use vstd::string::StringExecFns;

verus! {

/// The fragments joined with the separator between consecutive fragments.
pub open spec fn joined(items: Seq<Seq<char>>, sep: Seq<char>) -> Seq<char>
    decreases items.len(),
{
    if items.len() == 0 {
        Seq::empty()
    } else if items.len() == 1 {
        items[0]
    } else {
        items[0] + sep + joined(items.drop_first(), sep)
    }
}

/// Joining one more fragment appends a separator and the fragment.
proof fn lemma_joined_snoc(items: Seq<Seq<char>>, sep: Seq<char>, i: int)
    requires
        1 <= i < items.len(),
    ensures
        joined(items.take(i + 1), sep) == joined(items.take(i), sep) + sep + items[i],
    decreases i,
{
    if i == 1 {
        let two = items.take(2);
        assert(two.drop_first() =~= seq![items[1]]);
        assert(joined(two.drop_first(), sep) == items[1]);
        assert(items.take(1) =~= seq![items[0]]);
    } else {
        lemma_joined_snoc(items.drop_first(), sep, i - 1);
        assert(items.take(i + 1).drop_first() =~= items.drop_first().take(i));
        assert(items.take(i).drop_first() =~= items.drop_first().take(i - 1));
        assert(items.drop_first()[i - 1] == items[i]);
        assert(joined(items.take(i + 1), sep) == items[0] + sep + joined(
            items.drop_first().take(i),
            sep,
        ));
        assert(joined(items.take(i), sep) == items[0] + sep + joined(
            items.drop_first().take(i - 1),
            sep,
        ));
        assert((items[0] + sep + (joined(items.drop_first().take(i - 1), sep) + sep + items[i]))
            =~= (items[0] + sep + joined(items.drop_first().take(i - 1), sep)) + sep + items[i]);
    }
}

/// Join the fragments with the separator, in order, with no leading or
/// trailing separator.
pub fn join_lines(items: &Vec<String>, sep: &str) -> (r: String)
    ensures
        r@ == joined(items.deep_view(), sep@),
{
    let ghost iv = items.deep_view();
    let mut r = String::new();
    let mut i: usize = 0;
    while i < items.len()
        invariant
            i <= items@.len(),
            iv == items.deep_view(),
            iv.len() == items@.len(),
            i == 0 ==> r@ == Seq::<char>::empty(),
            i >= 1 ==> r@ == joined(iv.take(i as int), sep@),
        decreases items@.len() - i,
    {
        proof {
            assert(iv[i as int] == items@[i as int]@);
        }
        if i == 0 {
            r.append(items[0].as_str());
            proof {
                assert(iv.take(1) =~= seq![iv[0]]);
                assert(r@ =~= iv[0]);
            }
        } else {
            r.append(sep);
            r.append(items[i].as_str());
            proof {
                lemma_joined_snoc(iv, sep@, i as int);
                assert(r@ =~= joined(iv.take(i as int), sep@) + sep@ + iv[i as int]);
            }
        }
        i = i + 1;
    }
    proof {
        if items@.len() == 0 {
            assert(joined(iv, sep@) == Seq::<char>::empty());
        } else {
            assert(iv.take(items@.len() as int) =~= iv);
        }
    }
    r
}

} // verus!
