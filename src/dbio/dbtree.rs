//! The search tree threaded through the field records of a file.
use vstd::prelude::*;
use crate::bytes::{be8, lemma_be8_round_trip};
use crate::dbio::dbchunk::{
    ChunkyFile,
    pointer_writable,
    with_child,
    with_balance,
    lemma_with_child_bytes,
};
use crate::dbio::dbfield::{
    Field,
    FieldV,
    FieldCmp,
    decode_field,
    field_cmp,
    lemma_decoded_present,
    lemma_decode_shape,
    lemma_decode_slot,
    lemma_decode_frame,
    lemma_field_cmp_antisym,
    lemma_field_cmp_keys,
};
use crate::error::DbError;

verus! {

/// The largest laziness a tree accepts.
pub const LAZE_MAX: u8 = 127;

/// Offset of the balance factor within a record.
pub const BF_OFFSET: u64 = 0;

/// Offset of the left child offset within a record.
pub const LC_OFFSET: u64 = 1;

/// Offset of the right child offset within a record.
pub const RC_OFFSET: u64 = 9;

/// Where a search for `new` that starts at node `cur` ends, with at most `fuel` nodes visited:
/// `None` where it meets the record at `p` itself, else the node whose empty child slot it
/// reaches and whether that is the right slot. Fields greater than a node go right, all others
/// left.
pub open spec fn walk(d: Seq<u8>, cur: u64, new: FieldV, p: u64, fuel: nat) -> Result<
    Option<(u64, bool)>,
    DbError,
>
    decreases fuel,
{
    if fuel == 0 {
        Err(DbError::Corruption)
    } else if cur == p {
        Ok(None)
    } else if cur > d.len() {
        Err(DbError::ShortBuffer)
    } else {
        match decode_field(d.skip(cur as int)) {
            Err(e) => Err(e),
            Ok((node, _)) => if field_cmp(new, node) == FieldCmp::GreaterThan {
                if node.right == 0 {
                    Ok(Some((cur, true)))
                } else {
                    walk(d, node.right, new, p, (fuel - 1) as nat)
                }
            } else {
                if node.left == 0 {
                    Ok(Some((cur, false)))
                } else {
                    walk(d, node.left, new, p, (fuel - 1) as nat)
                }
            },
        }
    }
}

/// The file and the head once a search from `head` has ended at `landing` for the record at `p`.
pub open spec fn attach(d: Seq<u8>, head: u64, p: u64, landing: Result<Option<(u64, bool)>, DbError>) -> Result<
    (Seq<u8>, u64),
    DbError,
> {
    match landing {
        Err(e) => Err(e),
        Ok(None) => Ok((d, head)),
        Ok(Some((parent, greater))) => if pointer_writable(d.len(), parent as nat) {
            Ok(
                (
                    with_child(
                        d,
                        parent as nat,
                        if greater {
                            RC_OFFSET as nat
                        } else {
                            LC_OFFSET as nat
                        },
                        p,
                    ),
                    head,
                ),
            )
        } else {
            Err(DbError::Corruption)
        },
    }
}

/// The file and the head after inserting the record at `p` into the tree at `head` of the file
/// `d`: an empty tree takes `p` as its head; a record already on its search path changes
/// nothing; otherwise `p` fills the empty child slot where the search ends.
pub open spec fn insert_result(d: Seq<u8>, head: u64, p: u64) -> Result<(Seq<u8>, u64), DbError> {
    if p > d.len() {
        Err(DbError::ShortBuffer)
    } else {
        match decode_field(d.skip(p as int)) {
            Err(e) => Err(e),
            Ok((new, _)) => if head == 0 {
                Ok((d, p))
            } else {
                attach(d, head, p, walk(d, head, new, p, d.len()))
            },
        }
    }
}

/// Where a search for a record equal to `key` that starts at node `cur` ends, with at most `fuel`
/// nodes visited: the offset of the first equal record met, or 0 where it reaches an empty slot.
pub open spec fn search_result(d: Seq<u8>, cur: u64, key: FieldV, fuel: nat) -> Result<u64, DbError>
    decreases fuel,
{
    if cur == 0 {
        Ok(0)
    } else if fuel == 0 {
        Err(DbError::Corruption)
    } else if cur > d.len() {
        Err(DbError::ShortBuffer)
    } else {
        match decode_field(d.skip(cur as int)) {
            Err(e) => Err(e),
            Ok((node, _)) => match field_cmp(key, node) {
                FieldCmp::Equal => Ok(cur),
                FieldCmp::GreaterThan => search_result(d, node.right, key, (fuel - 1) as nat),
                FieldCmp::LessThan => search_result(d, node.left, key, (fuel - 1) as nat),
            },
        }
    }
}

/// Whether the records that a search for `new` from `cur` reads stay clear of the three bytes at
/// `crc`, and all but the last of them clear of the eight bytes at `slot`.
pub open spec fn walk_avoids(
    d: Seq<u8>,
    cur: u64,
    new: FieldV,
    p: u64,
    fuel: nat,
    slot: int,
    crc: int,
) -> bool
    decreases fuel,
{
    if fuel == 0 || cur == p || cur > d.len() {
        true
    } else {
        match decode_field(d.skip(cur as int)) {
            Err(_) => true,
            Ok((node, n)) => {
                let next = if field_cmp(new, node) == FieldCmp::GreaterThan {
                    node.right
                } else {
                    node.left
                };
                &&& (cur + n <= crc || crc + 3 <= cur)
                &&& (next == 0 || ((cur + n <= slot || slot + 8 <= cur) && walk_avoids(
                    d,
                    next,
                    new,
                    p,
                    (fuel - 1) as nat,
                    slot,
                    crc,
                )))
            },
        }
    }
}

/// Whether inserting the record at `p` into the tree at `head` of `d` rewrites no byte that a
/// second search for it reads: the records on the search path and the record at `p` avoid the
/// rewritten child offset (but for the node that receives it) and the rewritten checksum, and the
/// search would end in the same place with one node fewer to visit.
pub open spec fn search_avoids_rewrite(d: Seq<u8>, head: u64, p: u64) -> bool {
    let new = decode_field(d.skip(p as int))->Ok_0.0;
    let pn = decode_field(d.skip(p as int))->Ok_0.1;
    match walk(d, head, new, p, d.len()) {
        Ok(Some((parent, greater))) => {
            let slot = parent + if greater {
                9int
            } else {
                1int
            };
            let crc = parent / 256 * 256 + 253;
            &&& walk(d, head, new, p, (d.len() - 1) as nat) == walk(d, head, new, p, d.len())
            &&& walk_avoids(d, head, new, p, d.len(), slot, crc)
            &&& (p + pn <= slot || slot + 8 <= p)
            &&& (p + pn <= crc || crc + 3 <= p)
        },
        _ => true,
    }
}

/// After `p` has been written into the child slot at `slot`, a search that had ended at that slot
/// now meets `p`.
proof fn lemma_walk_again(
    d: Seq<u8>,
    d1: Seq<u8>,
    cur: u64,
    new: FieldV,
    p: u64,
    fuel: nat,
    parent: u64,
    greater: bool,
    slot: int,
    crc: int,
)
    requires
        fuel >= 1,
        walk(d, cur, new, p, fuel) == Ok::<Option<(u64, bool)>, DbError>(Some((parent, greater))),
        walk(d, cur, new, p, (fuel - 1) as nat) == Ok::<Option<(u64, bool)>, DbError>(
            Some((parent, greater)),
        ),
        walk_avoids(d, cur, new, p, fuel, slot, crc),
        slot == parent + if greater {
            9int
        } else {
            1int
        },
        p != 0,
        d1.len() == d.len(),
        forall|i: int|
            0 <= i < d.len() && !(slot <= i < slot + 8) && !(crc <= i < crc + 3) ==> #[trigger] d1[i]
                == d[i],
        forall|k: int| 0 <= k < 8 ==> #[trigger] d1[slot + k] == be8(p)[k],
    ensures
        walk(d1, cur, new, p, fuel) == Ok::<Option<(u64, bool)>, DbError>(None),
    decreases fuel,
{
    let x = d.skip(cur as int);
    let y = d1.skip(cur as int);
    let (node, n) = decode_field(x)->Ok_0;
    lemma_decode_shape(x);
    let next = if field_cmp(new, node) == FieldCmp::GreaterThan {
        node.right
    } else {
        node.left
    };
    if next == 0 {
        let off = slot - cur;
        assert forall|i: int| 0 <= i < n && !(off <= i < off + 8) implies #[trigger] y[i] == x[i] by {
            assert(d1[cur + i] == d[cur + i]);
        }
        lemma_decode_slot(x, y, off);
        let node1 = decode_field(y)->Ok_0.0;
        let w = if greater {
            y.subrange(9, 17)
        } else {
            y.subrange(1, 9)
        };
        assert(w =~= be8(p)) by {
            assert forall|k: int| 0 <= k < 8 implies w[k] == be8(p)[k] by {
                assert(d1[slot + k] == be8(p)[k]);
            }
        }
        lemma_be8_round_trip(p);
        lemma_field_cmp_keys(new, node1, node);
        assert(walk(d1, p, new, p, (fuel - 1) as nat) == Ok::<Option<(u64, bool)>, DbError>(None));
    } else {
        assert forall|i: int| 0 <= i < n implies #[trigger] y[i] == x[i] by {
            assert(d1[cur + i] == d[cur + i]);
        }
        lemma_decode_frame(x, y);
        lemma_walk_again(d, d1, next, new, p, (fuel - 1) as nat, parent, greater, slot, crc);
    }
}

/// Linking the same record in a second time changes nothing: the file and the head stay as the
/// first `insert_result` left them.
pub proof fn lemma_insert_twice(d: Seq<u8>, head: u64, p: u64)
    requires
        d.len() % 256 == 0,
        p != 0,
        insert_result(d, head, p) is Ok,
        head != 0 ==> search_avoids_rewrite(d, head, p),
    ensures
        insert_result(insert_result(d, head, p)->Ok_0.0, insert_result(d, head, p)->Ok_0.1, p)
            == insert_result(d, head, p),
{
    let x = d.skip(p as int);
    let (new, pn) = decode_field(x)->Ok_0;
    lemma_decode_shape(x);
    if head != 0 {
        match walk(d, head, new, p, d.len()) {
            Ok(Some((parent, greater))) => {
                let off: nat = if greater {
                    9
                } else {
                    1
                };
                let slot = parent + off;
                let crc = parent / 256 * 256 + 253;
                let d1 = with_child(d, parent as nat, off, p);
                lemma_with_child_bytes(d, parent as nat, off, p);
                let y = d1.skip(p as int);
                assert forall|i: int| 0 <= i < pn implies #[trigger] y[i] == x[i] by {
                    assert(d1[p + i] == d[p + i]);
                }
                lemma_decode_frame(x, y);
                assert forall|k: int| 0 <= k < 8 implies #[trigger] d1[slot + k] == be8(p)[k] by {
                    assert(d1[parent + off + k] == be8(p)[k]);
                }
                lemma_walk_again(d, d1, head, new, p, d.len(), parent, greater, slot, crc);
            },
            _ => {},
        }
    }
}

/// A field without its tree header: what the order of fields looks at.
pub open spec fn key_of(f: FieldV) -> FieldV {
    FieldV { balance: 0, left: 0, right: 0, id: f.id, value: f.value }
}

/// The fields of the tree at `cur`, without their tree headers, left subtree first, at most
/// `fuel` levels deep; `None` where a record does not decode or the tree is deeper.
pub open spec fn in_order(d: Seq<u8>, cur: u64, fuel: nat) -> Option<Seq<FieldV>>
    decreases fuel,
{
    if cur == 0 {
        Some(Seq::empty())
    } else if fuel == 0 || cur > d.len() {
        None
    } else {
        match decode_field(d.skip(cur as int)) {
            Err(_) => None,
            Ok((node, _)) => match (
                in_order(d, node.left, (fuel - 1) as nat),
                in_order(d, node.right, (fuel - 1) as nat),
            ) {
                (Some(l), Some(r)) => Some(l + seq![key_of(node)] + r),
                _ => None,
            },
        }
    }
}

/// Whether each field is at most the next one.
pub open spec fn non_decreasing(s: Seq<FieldV>) -> bool {
    forall|i: int|
        0 <= i < s.len() - 1 ==> #[trigger] field_cmp(s[i], s[i + 1]) != FieldCmp::GreaterThan
}

/// Whether every record of the tree at `cur`, at most `fuel` levels deep, stays clear of the
/// eight bytes at `slot` and the three at `crc`.
pub open spec fn subtree_avoids(d: Seq<u8>, cur: u64, fuel: nat, slot: int, crc: int) -> bool
    decreases fuel,
{
    if cur == 0 || fuel == 0 || cur > d.len() {
        true
    } else {
        match decode_field(d.skip(cur as int)) {
            Err(_) => true,
            Ok((node, n)) => {
                &&& (cur + n <= slot || slot + 8 <= cur)
                &&& (cur + n <= crc || crc + 3 <= cur)
                &&& subtree_avoids(d, node.left, (fuel - 1) as nat, slot, crc)
                &&& subtree_avoids(d, node.right, (fuel - 1) as nat, slot, crc)
            },
        }
    }
}

/// Whether the records of the tree at `cur` stay clear of the bytes that inserting `new` rewrites:
/// all of them clear of the checksum at `crc`, and all but the node that receives the new child
/// clear of the child slot at `slot`.
pub open spec fn insert_frame(
    d: Seq<u8>,
    cur: u64,
    new: FieldV,
    p: u64,
    fuel: nat,
    slot: int,
    crc: int,
) -> bool
    decreases fuel,
{
    if cur == 0 || fuel == 0 || cur == p || cur > d.len() {
        true
    } else {
        match decode_field(d.skip(cur as int)) {
            Err(_) => true,
            Ok((node, n)) => {
                let greater = field_cmp(new, node) == FieldCmp::GreaterThan;
                let next = if greater {
                    node.right
                } else {
                    node.left
                };
                let other = if greater {
                    node.left
                } else {
                    node.right
                };
                &&& (cur + n <= crc || crc + 3 <= cur)
                &&& subtree_avoids(d, other, (fuel - 1) as nat, slot, crc)
                &&& (next == 0 || ((cur + n <= slot || slot + 8 <= cur) && insert_frame(
                    d,
                    next,
                    new,
                    p,
                    (fuel - 1) as nat,
                    slot,
                    crc,
                )))
            },
        }
    }
}

/// A traversal that succeeds succeeds alike with more fuel.
proof fn lemma_in_order_fuel(d: Seq<u8>, cur: u64, fuel: nat)
    requires
        in_order(d, cur, fuel) is Some,
    ensures
        in_order(d, cur, fuel + 1) == in_order(d, cur, fuel),
    decreases fuel,
{
    if cur != 0 {
        let (node, _) = decode_field(d.skip(cur as int))->Ok_0;
        lemma_in_order_fuel(d, node.left, (fuel - 1) as nat);
        lemma_in_order_fuel(d, node.right, (fuel - 1) as nat);
    }
}

/// A tree whose records stay clear of the bytes that changed traverses alike.
proof fn lemma_in_order_frame(d: Seq<u8>, d1: Seq<u8>, cur: u64, fuel: nat, slot: int, crc: int)
    requires
        in_order(d, cur, fuel) is Some,
        subtree_avoids(d, cur, fuel, slot, crc),
        d1.len() == d.len(),
        forall|i: int|
            0 <= i < d.len() && !(slot <= i < slot + 8) && !(crc <= i < crc + 3) ==> #[trigger] d1[i]
                == d[i],
    ensures
        in_order(d1, cur, fuel) == in_order(d, cur, fuel),
    decreases fuel,
{
    if cur != 0 {
        let x = d.skip(cur as int);
        let y = d1.skip(cur as int);
        let (node, n) = decode_field(x)->Ok_0;
        lemma_decode_shape(x);
        assert forall|i: int| 0 <= i < n implies #[trigger] y[i] == x[i] by {
            assert(d1[cur + i] == d[cur + i]);
        }
        lemma_decode_frame(x, y);
        lemma_in_order_frame(d, d1, node.left, (fuel - 1) as nat, slot, crc);
        lemma_in_order_frame(d, d1, node.right, (fuel - 1) as nat, slot, crc);
    }
}

/// After `p` has been written into the child slot where a search for `new` ended, the traversal
/// of the tree at `cur` is the old one with `new` placed at index `k`, between a field it is
/// greater than and one it is at most.
#[verifier::rlimit(60)]
proof fn lemma_insert_in_order(
    d: Seq<u8>,
    d1: Seq<u8>,
    cur: u64,
    new: FieldV,
    p: u64,
    fuel: nat,
    parent: u64,
    greater: bool,
    slot: int,
    crc: int,
) -> (k: int)
    requires
        cur != 0,
        walk(d, cur, new, p, fuel) == Ok::<Option<(u64, bool)>, DbError>(Some((parent, greater))),
        in_order(d, cur, fuel) is Some,
        insert_frame(d, cur, new, p, fuel, slot, crc),
        slot == parent + if greater {
            9int
        } else {
            1int
        },
        new.value.is_present(),
        p != 0,
        forall|f: nat| f >= 1 ==> #[trigger] in_order(d1, p, f) == Some(seq![key_of(new)]),
        d1.len() == d.len(),
        forall|i: int|
            0 <= i < d.len() && !(slot <= i < slot + 8) && !(crc <= i < crc + 3) ==> #[trigger] d1[i]
                == d[i],
        forall|j: int| 0 <= j < 8 ==> #[trigger] d1[slot + j] == be8(p)[j],
    ensures
        ({
            let s = in_order(d, cur, fuel)->Some_0;
            &&& 0 <= k <= s.len()
            &&& in_order(d1, cur, fuel + 1) == Some(s.take(k) + seq![key_of(new)] + s.skip(k))
            &&& k > 0 ==> field_cmp(new, s[k - 1]) == FieldCmp::GreaterThan
            &&& k < s.len() ==> field_cmp(new, s[k]) != FieldCmp::GreaterThan
        }),
    decreases fuel,
{
    let x = d.skip(cur as int);
    let y = d1.skip(cur as int);
    assert(fuel >= 1 && cur != p && cur <= d.len() && decode_field(x) is Ok);
    let (node, n) = decode_field(x)->Ok_0;
    lemma_decode_shape(x);
    lemma_decoded_present(x);
    let g = field_cmp(new, node) == FieldCmp::GreaterThan;
    let next = if g {
        node.right
    } else {
        node.left
    };
    let other = if g {
        node.left
    } else {
        node.right
    };
    let l = in_order(d, node.left, (fuel - 1) as nat)->Some_0;
    let r = in_order(d, node.right, (fuel - 1) as nat)->Some_0;
    let s = in_order(d, cur, fuel)->Some_0;
    assert(s == l + seq![key_of(node)] + r);
    lemma_in_order_frame(d, d1, other, (fuel - 1) as nat, slot, crc);
    lemma_in_order_fuel(d1, other, (fuel - 1) as nat);
    let node1 = decode_field(y)->Ok_0.0;
    let sub: Seq<FieldV>;
    let k_sub: int;
    if next == 0 {
        let off = slot - cur;
        assert forall|i: int| 0 <= i < n && !(off <= i < off + 8) implies #[trigger] y[i] == x[i] by {
            assert(d1[cur + i] == d[cur + i]);
        }
        lemma_decode_slot(x, y, off);
        let w = if greater {
            y.subrange(9, 17)
        } else {
            y.subrange(1, 9)
        };
        assert(w =~= be8(p)) by {
            assert forall|j: int| 0 <= j < 8 implies w[j] == be8(p)[j] by {
                assert(d1[slot + j] == be8(p)[j]);
            }
        }
        lemma_be8_round_trip(p);
        assert(in_order(d1, p, fuel) == Some(seq![key_of(new)]));
        sub = Seq::empty();
        k_sub = 0;
    } else {
        assert forall|i: int| 0 <= i < n implies #[trigger] y[i] == x[i] by {
            assert(d1[cur + i] == d[cur + i]);
        }
        lemma_decode_frame(x, y);
        k_sub = lemma_insert_in_order(d, d1, next, new, p, (fuel - 1) as nat, parent, greater, slot, crc);
        sub = in_order(d, next, (fuel - 1) as nat)->Some_0;
    }
    assert(key_of(node1) == key_of(node));
    lemma_field_cmp_keys(new, key_of(node), node);
    if g {
        assert(sub == r);
        let k = l.len() + 1 + k_sub;
        assert(s.take(k) =~= l + seq![key_of(node)] + r.take(k_sub));
        assert(s.skip(k) =~= r.skip(k_sub));
        assert(in_order(d1, cur, fuel + 1) == Some(
            l + seq![key_of(node)] + (r.take(k_sub) + seq![key_of(new)] + r.skip(k_sub)),
        ));
        assert(l + seq![key_of(node)] + (r.take(k_sub) + seq![key_of(new)] + r.skip(k_sub))
            =~= s.take(k) + seq![key_of(new)] + s.skip(k));
        if k_sub == 0 {
            assert(s[k - 1] == key_of(node));
        } else {
            assert(s[k - 1] == r[k_sub - 1]);
        }
        if k < s.len() {
            assert(s[k] == r[k_sub]);
        }
        k
    } else {
        assert(sub == l);
        let k = k_sub;
        assert(s.take(k) =~= l.take(k_sub));
        assert(s.skip(k) =~= l.skip(k_sub) + seq![key_of(node)] + r);
        assert(in_order(d1, cur, fuel + 1) == Some(
            (l.take(k_sub) + seq![key_of(new)] + l.skip(k_sub)) + seq![key_of(node)] + r,
        ));
        assert((l.take(k_sub) + seq![key_of(new)] + l.skip(k_sub)) + seq![key_of(node)] + r
            =~= s.take(k) + seq![key_of(new)] + s.skip(k));
        if k > 0 {
            assert(s[k - 1] == l[k_sub - 1]);
        }
        if k_sub < l.len() {
            assert(s[k] == l[k_sub]);
        } else {
            assert(s[k] == key_of(node));
        }
        k
    }
}

/// The fields of a traversal all hold values.
proof fn lemma_in_order_present(d: Seq<u8>, cur: u64, fuel: nat)
    requires
        in_order(d, cur, fuel) is Some,
    ensures
        forall|i: int|
            0 <= i < in_order(d, cur, fuel)->Some_0.len() ==> (#[trigger] in_order(
                d,
                cur,
                fuel,
            )->Some_0[i]).value.is_present(),
    decreases fuel,
{
    if cur != 0 {
        let x = d.skip(cur as int);
        let (node, _) = decode_field(x)->Ok_0;
        lemma_decoded_present(x);
        lemma_in_order_present(d, node.left, (fuel - 1) as nat);
        lemma_in_order_present(d, node.right, (fuel - 1) as nat);
        let l = in_order(d, node.left, (fuel - 1) as nat)->Some_0;
        let r = in_order(d, node.right, (fuel - 1) as nat)->Some_0;
        let s = in_order(d, cur, fuel)->Some_0;
        assert forall|i: int| 0 <= i < s.len() implies (#[trigger] s[i]).value.is_present() by {
            if i < l.len() {
                assert(s[i] == l[i]);
            } else if i > l.len() {
                assert(s[i] == r[i - l.len() - 1]);
            }
        }
    }
}

/// A field placed between one it is greater than and one it is at most keeps a non-decreasing
/// sequence non-decreasing.
proof fn lemma_insert_sorted(s: Seq<FieldV>, k: int, new: FieldV)
    requires
        non_decreasing(s),
        0 <= k <= s.len(),
        new.value.is_present(),
        forall|i: int| 0 <= i < s.len() ==> (#[trigger] s[i]).value.is_present(),
        k > 0 ==> field_cmp(new, s[k - 1]) == FieldCmp::GreaterThan,
        k < s.len() ==> field_cmp(new, s[k]) != FieldCmp::GreaterThan,
    ensures
        non_decreasing(s.take(k) + seq![key_of(new)] + s.skip(k)),
{
    let nw = key_of(new);
    let t = s.take(k) + seq![nw] + s.skip(k);
    assert(t.len() == s.len() + 1);
    assert forall|i: int| 0 <= i < k implies #[trigger] t[i] == s[i] by {}
    assert(t[k] == nw);
    assert forall|i: int| k < i < t.len() implies #[trigger] t[i] == s[i - 1] by {}
    if k > 0 {
        lemma_field_cmp_antisym(new, s[k - 1]);
        lemma_field_cmp_keys(s[k - 1], new, nw);
        assert(field_cmp(t[k - 1], t[k]) != FieldCmp::GreaterThan);
    }
    if k < s.len() {
        lemma_field_cmp_keys(s[k], new, nw);
        assert(field_cmp(t[k], t[k + 1]) != FieldCmp::GreaterThan);
    }
    assert forall|i: int| 0 <= i < t.len() - 1 implies #[trigger] field_cmp(
        t[i],
        t[i + 1],
    ) != FieldCmp::GreaterThan by {
        if i < k - 1 {
            assert(t[i + 1] == s[i + 1]);
            assert(field_cmp(s[i], s[i + 1]) != FieldCmp::GreaterThan);
        } else if i > k {
            let j = i - 1;
            assert(t[i] == s[j]);
            assert(field_cmp(s[j], s[j + 1]) != FieldCmp::GreaterThan);
        }
    }
}

/// Whether the bytes that inserting the record at `p` rewrites lie outside every record of the
/// tree at `head` that keeps its bytes, and outside the record at `p`.
pub open spec fn insert_rewrites_clear(d: Seq<u8>, head: u64, p: u64) -> bool {
    let new = decode_field(d.skip(p as int))->Ok_0.0;
    let pn = decode_field(d.skip(p as int))->Ok_0.1;
    match walk(d, head, new, p, d.len()) {
        Ok(Some((parent, greater))) => {
            let slot = parent + if greater {
                9int
            } else {
                1int
            };
            let crc = parent / 256 * 256 + 253;
            &&& insert_frame(d, head, new, p, d.len(), slot, crc)
            &&& (p + pn <= slot || slot + 8 <= p)
            &&& (p + pn <= crc || crc + 3 <= p)
        },
        _ => true,
    }
}

/// Linking a record into the tree keeps the tree in order: where the in-order traversal of the
/// tree at the head yields fields in non-decreasing order, so it does after the record at `p`,
/// outside any tree so far, has been linked in as `insert_result` says (the step of an insertion
/// that comes before any rebalancing).
#[verifier::rlimit(60)]
pub proof fn lemma_insert_keeps_order(d: Seq<u8>, head: u64, p: u64)
    requires
        d.len() % 256 == 0,
        p != 0,
        insert_result(d, head, p) is Ok,
        decode_field(d.skip(p as int))->Ok_0.0.left == 0,
        decode_field(d.skip(p as int))->Ok_0.0.right == 0,
        head != 0 ==> in_order(d, head, d.len()) is Some,
        head != 0 ==> non_decreasing(in_order(d, head, d.len())->Some_0),
        head != 0 ==> insert_rewrites_clear(d, head, p),
    ensures
        ({
            let (d1, h1) = insert_result(d, head, p)->Ok_0;
            &&& in_order(d1, h1, d.len() + 1) is Some
            &&& non_decreasing(in_order(d1, h1, d.len() + 1)->Some_0)
        }),
{
    let x = d.skip(p as int);
    let (new, pn) = decode_field(x)->Ok_0;
    lemma_decode_shape(x);
    lemma_decoded_present(x);
    let (d1, h1) = insert_result(d, head, p)->Ok_0;
    if head == 0 {
        assert(in_order(d, 0, d.len()) == Some(Seq::<FieldV>::empty()));
        assert(in_order(d, p, d.len() + 1) == Some(seq![key_of(new)]));
    } else {
        let s = in_order(d, head, d.len())->Some_0;
        match walk(d, head, new, p, d.len()) {
            Ok(Some((parent, greater))) => {
                let off: nat = if greater {
                    9
                } else {
                    1
                };
                let slot = parent + off;
                let crc = parent / 256 * 256 + 253;
                lemma_with_child_bytes(d, parent as nat, off, p);
                let y = d1.skip(p as int);
                assert forall|i: int| 0 <= i < pn implies #[trigger] y[i] == x[i] by {
                    assert(d1[p + i] == d[p + i]);
                }
                lemma_decode_frame(x, y);
                assert forall|f: nat| f >= 1 implies #[trigger] in_order(d1, p, f) == Some(
                    seq![key_of(new)],
                ) by {
                    assert(in_order(d1, 0, (f - 1) as nat) == Some(Seq::<FieldV>::empty()));
                    assert(Seq::<FieldV>::empty() + seq![key_of(new)] + Seq::<FieldV>::empty()
                        =~= seq![key_of(new)]);
                }
                assert forall|j: int| 0 <= j < 8 implies #[trigger] d1[slot + j] == be8(p)[j] by {
                    assert(d1[parent + off + j] == be8(p)[j]);
                }
                let k = lemma_insert_in_order(
                    d,
                    d1,
                    head,
                    new,
                    p,
                    d.len(),
                    parent,
                    greater,
                    slot,
                    crc,
                );
                lemma_in_order_present(d, head, d.len());
                lemma_insert_sorted(s, k, new);
            },
            _ => {
                lemma_in_order_fuel(d, head, d.len());
            },
        }
    }
}

/// The offsets of the nodes of the tree at `cur`, left subtree first, at most `fuel` levels deep;
/// `None` where a record does not decode or the tree is deeper.
pub open spec fn in_order_nodes(d: Seq<u8>, cur: u64, fuel: nat) -> Option<Seq<u64>>
    decreases fuel,
{
    if cur == 0 {
        Some(Seq::empty())
    } else if fuel == 0 || cur > d.len() {
        None
    } else {
        match decode_field(d.skip(cur as int)) {
            Err(_) => None,
            Ok((node, _)) => match (
                in_order_nodes(d, node.left, (fuel - 1) as nat),
                in_order_nodes(d, node.right, (fuel - 1) as nat),
            ) {
                (Some(l), Some(r)) => Some(l + seq![cur] + r),
                _ => None,
            },
        }
    }
}

/// The balance byte of a node whose subtrees have heights `hl` and `hr`: the sign of `hr - hl`,
/// which is the difference itself where the heights differ by at most one.
pub open spec fn balance_of(hl: nat, hr: nat) -> i8 {
    if hr > hl {
        1i8
    } else if hr < hl {
        -1i8
    } else {
        0i8
    }
}

/// The number of bits of `n`: the height of a perfectly balanced tree of `n` nodes.
pub open spec fn bit_len(n: nat) -> nat
    decreases n,
{
    if n == 0 {
        0
    } else {
        1 + bit_len(n / 2)
    }
}

/// More nodes need no fewer bits.
proof fn lemma_bit_len_mono(a: nat, b: nat)
    requires
        a <= b,
    ensures
        bit_len(a) <= bit_len(b),
    decreases b,
{
    if a > 0 {
        lemma_bit_len_mono(a / 2, b / 2);
    }
}

/// One more node needs at most one more bit.
proof fn lemma_bit_len_step(x: nat)
    ensures
        bit_len(x + 1) <= bit_len(x) + 1,
    decreases x,
{
    if x > 0 {
        lemma_bit_len_step(x / 2);
        lemma_bit_len_mono(((x + 1) / 2) as nat, (x / 2 + 1) as nat);
    }
}

/// The file, root and height after linking `nodes[lo..hi]` into a perfectly balanced tree: the
/// middle node is the root, the nodes before it form its left subtree and those after it its
/// right subtree, built alike; each node gets its child offsets and its balance byte, and its
/// chunk is sealed again after each write.
pub open spec fn build_spec(d: Seq<u8>, nodes: Seq<u64>, lo: int, hi: int) -> (Seq<u8>, u64, nat)
    decreases hi - lo,
{
    if lo >= hi {
        (d, 0, 0)
    } else {
        let mid = lo + (hi - lo) / 2;
        let (d1, l, hl) = build_spec(d, nodes, lo, mid);
        let (d2, r, hr) = build_spec(d1, nodes, mid + 1, hi);
        let n = nodes[mid] as nat;
        let d3 = with_child(d2, n, LC_OFFSET as nat, l);
        let d4 = with_child(d3, n, RC_OFFSET as nat, r);
        let d5 = with_balance(d4, n, balance_of(hl, hr));
        (d5, nodes[mid], 1 + if hl > hr {
            hl
        } else {
            hr
        })
    }
}

/// A perfectly balanced build has the height `bit_len` of its size, and the heights of the two
/// halves under its root differ by at most one: the balance byte written for the root, the sign
/// of that difference, is the difference itself. The same holds of every node, each being the
/// root of such a build.
pub proof fn lemma_build_balanced(d: Seq<u8>, nodes: Seq<u64>, lo: int, hi: int)
    requires
        lo <= hi,
    ensures
        build_spec(d, nodes, lo, hi).2 == bit_len((hi - lo) as nat),
        lo < hi ==> {
            let mid = lo + (hi - lo) / 2;
            let hl = bit_len((mid - lo) as nat);
            let hr = bit_len((hi - mid - 1) as nat);
            &&& hr <= hl <= hr + 1
            &&& balance_of(hl, hr) as int == hr - hl
        },
    decreases hi - lo,
{
    if lo < hi {
        let mid = lo + (hi - lo) / 2;
        let n = (hi - lo) as nat;
        let a = (mid - lo) as nat;
        let b = (hi - mid - 1) as nat;
        assert(a == n / 2);
        assert(b <= a <= b + 1);
        lemma_build_balanced(d, nodes, lo, mid);
        let d1 = build_spec(d, nodes, lo, mid).0;
        lemma_build_balanced(d1, nodes, mid + 1, hi);
        lemma_bit_len_mono(b, a);
        lemma_bit_len_step(b);
        if a == b + 1 {
            assert(bit_len(a) <= bit_len(b) + 1);
        }
        assert(bit_len(n) == 1 + bit_len(a));
    }
}

/// The file and head after rebalancing the tree at `head`: its nodes, in order, relinked into a
/// perfectly balanced tree. Only child offsets, balance bytes and the checksums of their chunks
/// change. `Corruption` where the tree cannot be traversed within the file or a node's tree
/// header does not lie in a chunk body; the file is then unchanged.
pub open spec fn rebalance_result(d: Seq<u8>, head: u64) -> Result<(Seq<u8>, u64), DbError> {
    match in_order_nodes(d, head, d.len()) {
        None => Err(DbError::Corruption),
        Some(ns) => if forall|k: int|
            0 <= k < ns.len() ==> pointer_writable(d.len(), #[trigger] ns[k] as nat) {
            let (d2, root, _) = build_spec(d, ns, 0, ns.len() as int);
            Ok((d2, root))
        } else {
            Err(DbError::Corruption)
        },
    }
}

/// The file, head, pending count and error after one insertion into a lazy tree: the record is
/// linked in as `insert_result` says; once `laze + 1` insertions are pending the tree is
/// rebalanced and the count starts again. A tree with `laze == 0` is rebalanced after every
/// insertion; a larger `laze` defers rebalancing, leaving balance bytes stale meanwhile.
pub open spec fn insert_step(d: Seq<u8>, head: u64, pending: u8, laze: u8, p: u64) -> (
    Seq<u8>,
    u64,
    u8,
    Option<DbError>,
) {
    match insert_result(d, head, p) {
        Err(e) => (d, head, pending, Some(e)),
        Ok((d1, h1)) => if pending < laze {
            (d1, h1, (pending + 1) as u8, None)
        } else {
            match rebalance_result(d1, h1) {
                Ok((d2, h2)) => (d2, h2, 0, None),
                Err(e) => (d1, h1, pending, Some(e)),
            }
        },
    }
}

/// Appends the offsets of the nodes of the tree at `cur`, left subtree first; false where the
/// tree cannot be traversed within `fuel` levels.
fn collect(file: &ChunkyFile, cur: u64, fuel: usize, out: &mut Vec<u64>) -> (r: bool)
    ensures
        r == in_order_nodes(file@, cur, fuel as nat) is Some,
        r ==> final(out)@ == old(out)@ + in_order_nodes(file@, cur, fuel as nat)->Some_0,
    decreases fuel,
{
    if cur == 0 {
        assert(old(out)@ + Seq::<u64>::empty() =~= old(out)@);
        return true;
    }
    if fuel == 0 || cur > file.size() as u64 {
        return false;
    }
    let node = match Field::from_bytes_at(file.as_bytes(), cur as usize) {
        Ok((field, _)) => field,
        Err(_) => {
            return false;
        },
    };
    let ghost o0 = out@;
    if !collect(file, node.left_child, fuel - 1, out) {
        return false;
    }
    out.push(cur);
    let ghost o1 = out@;
    if !collect(file, node.right_child, fuel - 1, out) {
        return false;
    }
    proof {
        let l = in_order_nodes(file@, node.left_child, (fuel - 1) as nat)->Some_0;
        let r = in_order_nodes(file@, node.right_child, (fuel - 1) as nat)->Some_0;
        assert(out@ =~= o0 + (l + seq![cur] + r));
    }
    true
}

/// Links `nodes[lo..hi]` into a perfectly balanced tree as `build_spec` says, and returns its
/// root and height.
fn build(file: &mut ChunkyFile, nodes: &Vec<u64>, lo: usize, hi: usize) -> (r: (u64, u64))
    requires
        old(file).wf(),
        lo <= hi <= nodes@.len(),
        forall|k: int| 0 <= k < nodes@.len() ==> pointer_writable(old(file)@.len(), #[trigger] nodes@[k] as nat),
    ensures
        final(file).wf(),
        final(file)@.len() == old(file)@.len(),
        r.1 <= hi - lo,
        (final(file)@, r.0, r.1 as nat) == build_spec(old(file)@, nodes@, lo as int, hi as int),
    decreases hi - lo,
{
    if lo >= hi {
        return (0, 0);
    }
    let mid = lo + (hi - lo) / 2;
    let (l, hl) = build(file, nodes, lo, mid);
    let (r, hr) = build(file, nodes, mid + 1, hi);
    let n = nodes[mid];
    let a = file.write_child(n, LC_OFFSET, l);
    let b = file.write_child(n, RC_OFFSET, r);
    let balance: i8 = if hr > hl {
        1
    } else if hr < hl {
        -1
    } else {
        0
    };
    let c = file.write_balance(n, balance);
    let h = 1 + if hl > hr {
        hl
    } else {
        hr
    };
    (n, h)
}

/// A search tree whose nodes are the field records of a chunk file.
pub struct LazyAVL {
    pub head: u64,
    pub laze: u8,
    pub pending: u8,
}

impl LazyAVL {
    /// A tree with the given head (0 for an empty tree) and laziness.
    pub fn new(head: u64, laze: u8) -> (r: LazyAVL)
        requires
            laze <= LAZE_MAX,
        ensures
            r.head == head,
            r.laze == laze,
            r.pending == 0,
    {
        LazyAVL { head, laze, pending: 0 }
    }

    /// The laziness of rebalancing.
    pub fn laze(&self) -> (r: u8)
        ensures
            r == self.laze,
    {
        self.laze
    }

    /// Sets the left child offset of the record at `field_pos` to `new_child`.
    pub fn field_change_left_child(&self, file: &mut ChunkyFile, field_pos: u64, new_child: u64) -> (r:
        Result<(), DbError>)
        requires
            old(file).wf(),
        ensures
            final(file).wf(),
            r is Ok <==> pointer_writable(old(file)@.len(), field_pos as nat),
            r is Ok ==> final(file)@ == with_child(
                old(file)@,
                field_pos as nat,
                LC_OFFSET as nat,
                new_child,
            ),
            r is Err ==> r->Err_0 == DbError::Corruption && final(file)@ == old(file)@,
    {
        file.write_child(field_pos, LC_OFFSET, new_child)
    }

    /// Sets the right child offset of the record at `field_pos` to `new_child`.
    pub fn field_change_right_child(&self, file: &mut ChunkyFile, field_pos: u64, new_child: u64) -> (r:
        Result<(), DbError>)
        requires
            old(file).wf(),
        ensures
            final(file).wf(),
            r is Ok <==> pointer_writable(old(file)@.len(), field_pos as nat),
            r is Ok ==> final(file)@ == with_child(
                old(file)@,
                field_pos as nat,
                RC_OFFSET as nat,
                new_child,
            ),
            r is Err ==> r->Err_0 == DbError::Corruption && final(file)@ == old(file)@,
    {
        file.write_child(field_pos, RC_OFFSET, new_child)
    }

    /// The offset of a record of `file` in the tree that is equal to `key`, or 0 where there is
    /// none.
    pub fn search(&self, file: &ChunkyFile, key: &Field) -> (r: Result<u64, DbError>)
        requires
            key.value@.is_present(),
        ensures
            r == search_result(file@, self.head, key@, file@.len()),
    {
        let len = file.size();
        let mut cur = self.head;
        let mut fuel: usize = len;
        loop
            invariant
                len == file@.len(),
                key.value@.is_present(),
                search_result(file@, self.head, key@, file@.len()) == search_result(
                    file@,
                    cur,
                    key@,
                    fuel as nat,
                ),
            decreases fuel,
        {
            if cur == 0 {
                return Ok(0);
            }
            if fuel == 0 {
                return Err(DbError::Corruption);
            }
            if cur > len as u64 {
                return Err(DbError::ShortBuffer);
            }
            let node = match Field::from_bytes_at(file.as_bytes(), cur as usize) {
                Ok((field, _)) => field,
                Err(e) => {
                    return Err(e);
                },
            };
            proof {
                lemma_decoded_present(file@.skip(cur as int));
            }
            match key.cmp(&node) {
                FieldCmp::Equal => {
                    return Ok(cur);
                },
                FieldCmp::GreaterThan => {
                    cur = node.right_child;
                },
                FieldCmp::LessThan => {
                    cur = node.left_child;
                },
            }
            fuel = fuel - 1;
        }
    }

    /// Rebalances the tree as `rebalance_result` says.
    pub fn rebalance(&mut self, file: &mut ChunkyFile) -> (r: Result<(), DbError>)
        requires
            old(file).wf(),
        ensures
            final(file).wf(),
            final(self).laze == old(self).laze,
            final(self).pending == old(self).pending,
            match rebalance_result(old(file)@, old(self).head) {
                Ok((d, h)) => r is Ok && final(file)@ == d && final(self).head == h,
                Err(e) => r == Err::<(), DbError>(e) && final(file)@ == old(file)@
                    && final(self).head == old(self).head,
            },
    {
        let mut nodes: Vec<u64> = Vec::new();
        if !collect(file, self.head, file.size(), &mut nodes) {
            return Err(DbError::Corruption);
        }
        assert(nodes@ =~= in_order_nodes(file@, self.head, file@.len())->Some_0);
        let len = file.size();
        let mut k: usize = 0;
        while k < nodes.len()
            invariant
                k <= nodes@.len(),
                len == file@.len(),
                file@ == old(file)@,
                file.wf(),
                self.head == old(self).head,
                self.laze == old(self).laze,
                self.pending == old(self).pending,
                nodes@ == in_order_nodes(file@, self.head, file@.len())->Some_0,
                in_order_nodes(file@, self.head, file@.len()) is Some,
                forall|m: int| 0 <= m < k ==> pointer_writable(len as nat, #[trigger] nodes@[m] as nat),
            decreases nodes@.len() - k,
        {
            let node = nodes[k];
            if node >= len as u64 || node % 256 < 1 || node % 256 + 17 > 253 {
                assert(!pointer_writable(len as nat, nodes@[k as int] as nat));
                return Err(DbError::Corruption);
            }
            k = k + 1;
        }
        let (root, _) = build(file, &nodes, 0, nodes.len());
        self.head = root;
        Ok(())
    }

    /// Inserts the record at `field_pos` of `file` into the tree, and rebalances the tree once
    /// `laze + 1` insertions are pending, as `insert_step` says.
    pub fn insert(&mut self, file: &mut ChunkyFile, field_pos: u64) -> (r: Result<(), DbError>)
        requires
            old(file).wf(),
            old(self).pending <= old(self).laze,
        ensures
            final(file).wf(),
            final(self).laze == old(self).laze,
            final(self).pending <= final(self).laze,
            ({
                let (d, h, pending, e) = insert_step(
                    old(file)@,
                    old(self).head,
                    old(self).pending,
                    old(self).laze,
                    field_pos,
                );
                &&& final(file)@ == d
                &&& final(self).head == h
                &&& final(self).pending == pending
                &&& e is Some ==> r == Err::<(), DbError>(e->Some_0)
                &&& e is None ==> r is Ok
            }),
    {
        match self.attach(file, field_pos) {
            Ok(()) => {},
            Err(e) => {
                return Err(e);
            },
        }
        if self.pending < self.laze {
            self.pending = self.pending + 1;
            return Ok(());
        }
        match self.rebalance(file) {
            Ok(()) => {
                self.pending = 0;
                Ok(())
            },
            Err(e) => Err(e),
        }
    }

    /// Links the record at `field_pos` of `file` into the tree, as `insert_result` says.
    pub fn attach(&mut self, file: &mut ChunkyFile, field_pos: u64) -> (r: Result<(), DbError>)
        requires
            old(file).wf(),
        ensures
            final(file).wf(),
            final(self).laze == old(self).laze,
            final(self).pending == old(self).pending,
            match insert_result(old(file)@, old(self).head, field_pos) {
                Ok((d, h)) => r is Ok && final(file)@ == d && final(self).head == h,
                Err(e) => r == Err::<(), DbError>(e) && final(file)@ == old(file)@
                    && final(self).head == old(self).head,
            },
    {
        let len = file.size();
        if field_pos > len as u64 {
            return Err(DbError::ShortBuffer);
        }
        let field_to_insert = match Field::from_bytes_at(file.as_bytes(), field_pos as usize) {
            Ok((field, _)) => field,
            Err(e) => {
                return Err(e);
            },
        };
        proof {
            lemma_decoded_present(file@.skip(field_pos as int));
        }
        if self.head == 0 {
            self.head = field_pos;
            return Ok(());
        }
        let ghost d = file@;
        let ghost new = field_to_insert@;
        let mut current_node_pos = self.head;
        let mut fuel: usize = len;
        loop
            invariant
                file@ == d,
                d == old(file)@,
                file.wf(),
                len == d.len(),
                self.head == old(self).head,
                self.laze == old(self).laze,
                self.pending == old(self).pending,
                current_node_pos != 0,
                field_to_insert@ == new,
                new.value.is_present(),
                walk(d, self.head, new, field_pos, d.len()) == walk(
                    d,
                    current_node_pos,
                    new,
                    field_pos,
                    fuel as nat,
                ),
                insert_result(d, self.head, field_pos) == attach(
                    d,
                    self.head,
                    field_pos,
                    walk(d, self.head, new, field_pos, d.len()),
                ),
            decreases fuel,
        {
            if fuel == 0 {
                return Err(DbError::Corruption);
            }
            if current_node_pos == field_pos {
                return Ok(());
            }
            if current_node_pos > len as u64 {
                return Err(DbError::ShortBuffer);
            }
            let current_node = match Field::from_bytes_at(file.as_bytes(), current_node_pos as usize) {
                Ok((field, _)) => field,
                Err(e) => {
                    return Err(e);
                },
            };
            proof {
                lemma_decoded_present(d.skip(current_node_pos as int));
            }
            if field_to_insert.cmp(&current_node) == FieldCmp::GreaterThan {
                if current_node.right_child == 0 {
                    return self.field_change_right_child(file, current_node_pos, field_pos);
                }
                current_node_pos = current_node.right_child;
            } else {
                if current_node.left_child == 0 {
                    return self.field_change_left_child(file, current_node_pos, field_pos);
                }
                current_node_pos = current_node.left_child;
            }
            fuel = fuel - 1;
        }
    }
}

} // verus!
