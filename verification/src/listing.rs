//! Pages of keys: the keys of a set in ascending order, from a cursor on and
//! up to a limit. This is the model that the listing of the store is stated
//! over.

use crate::order::{
    lemma_lex_lt_asymmetric, lemma_lex_lt_irreflexive, lemma_lex_lt_total,
    lemma_lex_lt_transitive, lex_le, lex_lt,
};
use vstd::prelude::*;

verus! {

/// `key` is in `keys` and no key of `keys` comes before it.
pub open spec fn is_least(keys: Set<Seq<u8>>, key: Seq<u8>) -> bool {
    keys.contains(key) && forall|other: Seq<u8>| #[trigger]
        keys.contains(other) ==> lex_le(key, other)
}

/// `keys` has a first key.
pub open spec fn has_least(keys: Set<Seq<u8>>) -> bool {
    exists|key: Seq<u8>| is_least(keys, key)
}

/// The first key of `keys`, where it has one.
pub open spec fn least(keys: Set<Seq<u8>>) -> Seq<u8> {
    choose|key: Seq<u8>| is_least(keys, key)
}

/// The keys of `keys` that come strictly after `start`; all of them where
/// there is no `start`.
pub open spec fn after(keys: Set<Seq<u8>>, start: Option<Seq<u8>>) -> Set<Seq<u8>> {
    match start {
        None => keys,
        Some(bound) => keys.filter(|key: Seq<u8>| lex_lt(bound, key)),
    }
}

/// The first `limit` keys of `keys` in ascending order, or all of them where
/// there are fewer.
pub open spec fn first_keys(keys: Set<Seq<u8>>, limit: nat) -> Seq<Seq<u8>>
    decreases limit,
{
    if limit == 0 || !has_least(keys) {
        Seq::empty()
    } else {
        seq![least(keys)] + first_keys(keys.remove(least(keys)), (limit - 1) as nat)
    }
}

/// One page: the first `limit` keys of `keys` that come strictly after
/// `start`, in ascending order.
pub open spec fn page(keys: Set<Seq<u8>>, start: Option<Seq<u8>>, limit: nat) -> Seq<Seq<u8>> {
    first_keys(after(keys, start), limit)
}

/// What `calls` successive pages of `limit` keys hold, one after the other:
/// the first page starts after `start`, each later one after the last key of
/// the page before it, and the paging stops at the first empty page.
pub open spec fn pages(keys: Set<Seq<u8>>, start: Option<Seq<u8>>, limit: nat, calls: nat) -> Seq<
    Seq<u8>,
>
    decreases calls,
{
    if calls == 0 {
        Seq::empty()
    } else {
        let first = page(keys, start, limit);
        if first.len() == 0 {
            first
        } else {
            first + pages(keys, Some(first.last()), limit, (calls - 1) as nat)
        }
    }
}

/// A set has at most one first key.
pub proof fn lemma_least_unique(keys: Set<Seq<u8>>, key: Seq<u8>)
    requires
        is_least(keys, key),
    ensures
        has_least(keys),
        least(keys) == key,
{
    let chosen = least(keys);
    assert(is_least(keys, chosen));
    assert(keys.contains(chosen) && keys.contains(key));
    if chosen != key {
        assert(lex_lt(chosen, key));
        assert(lex_lt(key, chosen));
        lemma_lex_lt_asymmetric(chosen, key);
    }
}

/// A finite set that is not empty has a first key.
pub proof fn lemma_finite_has_least(keys: Set<Seq<u8>>)
    requires
        keys.finite(),
        keys.len() > 0,
    ensures
        has_least(keys),
    decreases keys.len(),
{
    let picked = keys.choose();
    let rest = keys.remove(picked);
    if rest.len() == 0 {
        assert forall|other: Seq<u8>| #[trigger] keys.contains(other) implies lex_le(
            picked,
            other,
        ) by {
            if other != picked {
                assert(rest.contains(other));
            }
        }
        assert(is_least(keys, picked));
    } else {
        lemma_finite_has_least(rest);
        let low = least(rest);
        assert(is_least(rest, low));
        lemma_lex_lt_total(picked, low);
        if lex_lt(picked, low) {
            assert forall|other: Seq<u8>| #[trigger] keys.contains(other) implies lex_le(
                picked,
                other,
            ) by {
                if other != picked {
                    assert(rest.contains(other));
                    if low != other {
                        lemma_lex_lt_transitive(picked, low, other);
                    }
                }
            }
            assert(is_least(keys, picked));
        } else {
            assert forall|other: Seq<u8>| #[trigger] keys.contains(other) implies lex_le(
                low,
                other,
            ) by {
                if other != picked {
                    assert(rest.contains(other));
                }
            }
            assert(is_least(keys, low));
        }
    }
}

/// Past the first key of what comes after a cursor lies what comes after
/// that key.
pub proof fn lemma_after_least(keys: Set<Seq<u8>>, start: Option<Seq<u8>>, key: Seq<u8>)
    requires
        is_least(after(keys, start), key),
    ensures
        after(keys, start).remove(key) == after(keys, Some(key)),
{
    let left = after(keys, start).remove(key);
    let right = after(keys, Some(key));
    assert forall|other: Seq<u8>| left.contains(other) <==> right.contains(other) by {
        if left.contains(other) {
            assert(after(keys, start).contains(other));
            assert(lex_le(key, other));
        }
        if right.contains(other) {
            lemma_lex_lt_irreflexive(key);
            if let Some(bound) = start {
                lemma_lex_lt_transitive(bound, key, other);
            }
        }
    }
    assert(left =~= right);
}

/// A page starts with the first key after its cursor and goes on as the page
/// after that key does, with room for one key less.
pub proof fn lemma_page_step(
    keys: Set<Seq<u8>>,
    start: Option<Seq<u8>>,
    limit: nat,
    key: Seq<u8>,
)
    requires
        is_least(after(keys, start), key),
        limit > 0,
    ensures
        page(keys, start, limit) == seq![key] + page(keys, Some(key), (limit - 1) as nat),
{
    lemma_least_unique(after(keys, start), key);
    lemma_after_least(keys, start, key);
}

/// Where no key comes after the cursor, the page is empty.
pub proof fn lemma_page_of_nothing(keys: Set<Seq<u8>>, start: Option<Seq<u8>>, limit: nat)
    requires
        forall|key: Seq<u8>| !after(keys, start).contains(key),
    ensures
        page(keys, start, limit) == Seq::<Seq<u8>>::empty(),
{
}

/// The keys of a listing are keys of the set, each comes strictly before the
/// next ones, and a key of the set that the listing leaves out comes after
/// all that it holds.
pub proof fn lemma_first_keys_ascending(keys: Set<Seq<u8>>, limit: nat)
    ensures
        forall|i: int|
            0 <= i < first_keys(keys, limit).len() ==> keys.contains(
                #[trigger] first_keys(keys, limit)[i],
            ),
        forall|i: int, j: int|
            0 <= i < j < first_keys(keys, limit).len() ==> lex_lt(
                #[trigger] first_keys(keys, limit)[i],
                #[trigger] first_keys(keys, limit)[j],
            ),
        forall|key: Seq<u8>, i: int|
            #[trigger] keys.contains(key) && !first_keys(keys, limit).contains(key) && 0 <= i
                < first_keys(keys, limit).len() ==> lex_lt(
                #[trigger] first_keys(keys, limit)[i],
                key,
            ),
    decreases limit,
{
    let listed = first_keys(keys, limit);
    if limit > 0 && has_least(keys) {
        let low = least(keys);
        let rest = keys.remove(low);
        let tail = first_keys(rest, (limit - 1) as nat);
        assert(is_least(keys, low));
        lemma_first_keys_ascending(rest, (limit - 1) as nat);
        assert(listed == seq![low] + tail);
        assert forall|i: int| 0 <= i < listed.len() implies keys.contains(#[trigger] listed[i]) by {
            if i > 0 {
                assert(listed[i] == tail[i - 1]);
                assert(rest.contains(tail[i - 1]));
            }
        }
        assert forall|i: int, j: int| 0 <= i < j < listed.len() implies lex_lt(
            #[trigger] listed[i],
            #[trigger] listed[j],
        ) by {
            assert(listed[j] == tail[j - 1]);
            assert(rest.contains(tail[j - 1]));
            if i > 0 {
                assert(listed[i] == tail[i - 1]);
            } else {
                assert(keys.contains(listed[j]));
                assert(lex_le(low, listed[j]));
            }
        }
        assert forall|key: Seq<u8>, i: int|
            #[trigger] keys.contains(key) && !listed.contains(key) && 0 <= i
                < listed.len() implies lex_lt(#[trigger] listed[i], key) by {
            assert(listed[0] == low);
            assert(key != low);
            assert(rest.contains(key));
            if tail.contains(key) {
                let at = choose|at: int| 0 <= at < tail.len() && tail[at] == key;
                assert(listed[at + 1] == key);
            }
            if i > 0 {
                assert(listed[i] == tail[i - 1]);
            } else {
                assert(lex_le(low, key));
            }
        }
    }
}

/// The start of a page is exclusive: every key of the page comes strictly
/// after it, so the start itself is not listed.
pub proof fn lemma_page_is_after_start(keys: Set<Seq<u8>>, start: Seq<u8>, limit: nat)
    ensures
        forall|i: int|
            0 <= i < page(keys, Some(start), limit).len() ==> lex_lt(
                start,
                #[trigger] page(keys, Some(start), limit)[i],
            ),
        !page(keys, Some(start), limit).contains(start),
{
    let listed = page(keys, Some(start), limit);
    lemma_first_keys_ascending(after(keys, Some(start)), limit);
    assert forall|i: int| 0 <= i < listed.len() implies lex_lt(start, #[trigger] listed[i]) by {
        assert(after(keys, Some(start)).contains(listed[i]));
    }
    lemma_lex_lt_irreflexive(start);
}

/// A listing of a finite set holds as many keys as the limit allows and the
/// set has.
pub proof fn lemma_first_keys_len(keys: Set<Seq<u8>>, limit: nat)
    requires
        keys.finite(),
    ensures
        first_keys(keys, limit).len() == if limit <= keys.len() {
            limit
        } else {
            keys.len()
        },
    decreases limit,
{
    if limit > 0 {
        if keys.len() == 0 {
            assert(!has_least(keys)) by {
                if has_least(keys) {
                    assert(keys.contains(least(keys)));
                }
            }
        } else {
            lemma_finite_has_least(keys);
            assert(is_least(keys, least(keys)));
            lemma_first_keys_len(keys.remove(least(keys)), (limit - 1) as nat);
        }
    }
}

/// A listing of a finite set with room for all its keys holds every one of
/// them.
pub proof fn lemma_first_keys_complete(keys: Set<Seq<u8>>, limit: nat, key: Seq<u8>)
    requires
        keys.finite(),
        keys.len() <= limit,
        keys.contains(key),
    ensures
        first_keys(keys, limit).contains(key),
    decreases limit,
{
    lemma_finite_has_least(keys);
    let low = least(keys);
    let rest = keys.remove(low);
    let tail = first_keys(rest, (limit - 1) as nat);
    assert(is_least(keys, low));
    let listed = first_keys(keys, limit);
    assert(listed == seq![low] + tail);
    if key == low {
        assert(listed[0] == key);
    } else {
        lemma_first_keys_complete(rest, (limit - 1) as nat, key);
        let at = choose|at: int| 0 <= at < tail.len() && tail[at] == key;
        assert(listed[at + 1] == key);
    }
}

/// Paging goes on where it stopped: a page that is not empty, followed by
/// the page that starts after its last key, is the one page of both limits
/// together. No key is listed twice and none is passed over.
pub proof fn lemma_page_chain(
    keys: Set<Seq<u8>>,
    start: Option<Seq<u8>>,
    limit: nat,
    more: nat,
)
    requires
        page(keys, start, limit).len() > 0,
    ensures
        page(keys, start, limit + more) == page(keys, start, limit) + page(
            keys,
            Some(page(keys, start, limit).last()),
            more,
        ),
    decreases limit,
{
    let low = least(after(keys, start));
    assert(is_least(after(keys, start), low));
    lemma_page_step(keys, start, limit, low);
    lemma_page_step(keys, start, limit + more, low);
    let head = page(keys, start, limit);
    let tail = page(keys, Some(low), (limit - 1) as nat);
    assert(head == seq![low] + tail);
    if tail.len() == 0 {
        assert(head.last() == low);
        if limit - 1 > 0 {
            assert(!has_least(after(keys, Some(low))));
        }
        assert(page(keys, Some(low), (limit + more - 1) as nat) == page(keys, Some(low), more));
        assert(head =~= seq![low]);
    } else {
        lemma_page_chain(keys, Some(low), (limit - 1) as nat, more);
        assert(head.last() == tail.last());
        assert(((limit - 1) as nat) + more == (limit + more - 1) as nat);
        assert(seq![low] + (tail + page(keys, Some(tail.last()), more)) =~= (seq![low] + tail)
            + page(keys, Some(tail.last()), more));
    }
}

/// Paging with a limit, each call from the last key of the page before,
/// gives call after call what one listing without pages gives.
pub proof fn lemma_pages_are_one_listing(
    keys: Set<Seq<u8>>,
    start: Option<Seq<u8>>,
    limit: nat,
    calls: nat,
)
    ensures
        pages(keys, start, limit, calls) == page(keys, start, limit * calls),
    decreases calls,
{
    if calls == 0 {
        assert(limit * calls == 0) by (nonlinear_arith)
            requires
                calls == 0,
        ;
    } else {
        let first = page(keys, start, limit);
        let rest = (calls - 1) as nat;
        assert(limit * calls == limit + limit * rest) by (nonlinear_arith)
            requires
                rest == calls - 1,
        ;
        if first.len() == 0 {
            if limit > 0 {
                assert(!has_least(after(keys, start)));
            }
        } else {
            lemma_pages_are_one_listing(keys, Some(first.last()), limit, rest);
            lemma_page_chain(keys, start, limit, limit * rest);
        }
    }
}

/// Paging through a finite set of keys lists the whole set: once the calls
/// times the limit reach the number of keys after the start, the pages
/// together hold each of these keys once, in ascending order.
pub proof fn lemma_pages_list_everything(
    keys: Set<Seq<u8>>,
    start: Option<Seq<u8>>,
    limit: nat,
    calls: nat,
)
    requires
        keys.finite(),
        limit * calls >= after(keys, start).len(),
    ensures
        pages(keys, start, limit, calls).len() == after(keys, start).len(),
        forall|key: Seq<u8>|
            after(keys, start).contains(key) <==> #[trigger] pages(
                keys,
                start,
                limit,
                calls,
            ).contains(key),
        forall|i: int, j: int|
            0 <= i < j < pages(keys, start, limit, calls).len() ==> lex_lt(
                #[trigger] pages(keys, start, limit, calls)[i],
                #[trigger] pages(keys, start, limit, calls)[j],
            ),
{
    let wanted = after(keys, start);
    let listed = pages(keys, start, limit, calls);
    lemma_pages_are_one_listing(keys, start, limit, calls);
    lemma_after_is_finite(keys, start);
    lemma_first_keys_len(wanted, limit * calls);
    lemma_first_keys_ascending(wanted, limit * calls);
    assert forall|key: Seq<u8>| wanted.contains(key) <==> #[trigger] listed.contains(key) by {
        if wanted.contains(key) {
            lemma_first_keys_complete(wanted, limit * calls, key);
        }
        if listed.contains(key) {
            let at = choose|at: int| 0 <= at < listed.len() && listed[at] == key;
            assert(wanted.contains(listed[at]));
        }
    }
}

/// What comes after a cursor in a finite set is finite.
pub proof fn lemma_after_is_finite(keys: Set<Seq<u8>>, start: Option<Seq<u8>>)
    requires
        keys.finite(),
    ensures
        after(keys, start).finite(),
        after(keys, start).len() <= keys.len(),
{
    if let Some(bound) = start {
        keys.lemma_len_filter(|key: Seq<u8>| lex_lt(bound, key));
    }
}

} // verus!
