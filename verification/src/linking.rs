//! What assembly does to label references, seen over a whole source:
//! every word that refers to a label ends up holding the address at
//! which the label was defined.
//!
//! The proof follows the references of the current unit in a map from
//! address to label, and those of the units that have ended in a map
//! from address to the value the word must hold. Each reference has an
//! age, the order in which the references were made. While a label is
//! not defined, its chain runs through its references from the youngest
//! to the oldest.

use vstd::prelude::*;
use crate::word::{WORDCOUNT, LABV, LABVCOUNT};
use crate::format::{ch_at, is_digit};
use crate::assembler::{
    ImageView, image_wf, rch_spec, rdn_spec, fn_code, directive_spec, assemble_from,
    assemble_spec, close_unit, clear_labels, patch_chain, skip_comments, define_spec,
    lemma_directive_moves, lemma_directive_keeps_wf, lemma_first_unset, lemma_skip_comments,
};

verus! {

/// Word `a` is a reference to label `n` made in the current unit.
pub open spec fn is_ref(refs: Map<int, int>, a: int, n: int) -> bool {
    refs.dom().contains(a) && refs[a] == n
}

/// The position of the operand of the instruction whose letter is at
/// `pos`: past the modifiers `I`, `P` and `G`.
pub open spec fn operand_pos(src: Seq<u8>, pos: int) -> int {
    let c0 = rch_spec(src, pos);
    let c1 = if ch_at(src, c0) == 73 {
        rch_spec(src, c0)
    } else {
        c0
    };
    let c2 = if ch_at(src, c1) == 80 {
        rch_spec(src, c1)
    } else {
        c1
    };
    if ch_at(src, c2) == 71 {
        rch_spec(src, c2)
    } else {
        c2
    }
}

/// The reference that the directive at `pos` makes in emitted code, as
/// address and label: the operand word of an instruction on a label, or
/// the data word of `D L`; `None` for any other directive.
pub open spec fn ref_made(iv: ImageView, src: Seq<u8>, pos: int) -> Option<(int, int)> {
    let c = ch_at(src, pos);
    if is_digit(c) || c == 36 || c == 32 || c == 10 {
        None
    } else if fn_code(c) >= 0 {
        if ch_at(src, operand_pos(src, pos)) == 76 {
            Some(
                (iv.lomem + 1, rdn_spec(src, rch_spec(src, operand_pos(src, pos))).1 as int),
            )
        } else {
            None
        }
    } else if c == 68 && ch_at(src, rch_spec(src, pos)) == 76 {
        Some((iv.lomem, rdn_spec(src, rch_spec(src, rch_spec(src, pos))).1 as int))
    } else {
        None
    }
}

/// The slot that the `G` directive at `pos` names.
pub open spec fn global_slot(src: Seq<u8>, pos: int) -> int {
    rdn_spec(src, rch_spec(src, pos)).1 as int
}

/// The label that the `G` directive at `pos` names.
pub open spec fn global_label(src: Seq<u8>, pos: int) -> int {
    rdn_spec(src, rch_spec(src, rdn_spec(src, rch_spec(src, pos)).0)).1 as int
}

/// The word that the directive at `pos` makes refer to a label: a
/// reference in emitted code, or the slot of a `G` directive.
pub open spec fn link_made(iv: ImageView, src: Seq<u8>, pos: int) -> Option<(int, int)> {
    if ch_at(src, pos) == 71 {
        if global_slot(src, pos) > 0 {
            Some((global_slot(src, pos), global_label(src, pos)))
        } else {
            None
        }
    } else {
        ref_made(iv, src, pos)
    }
}

/// Word `a` is on the chain of a label that is not defined yet.
pub open spec fn pending_ref(iv: ImageView, refs: Map<int, int>, a: int) -> bool {
    refs.dom().contains(a) && iv.m[LABV + refs[a]] >= 0
}

/// The directive at `pos`, if it is a `G`, names a slot that lies below
/// `base` and is on no chain; and where its label is not defined yet,
/// the slot is not word 0.
pub open spec fn global_tame(
    iv: ImageView,
    src: Seq<u8>,
    pos: int,
    base: int,
    refs: Map<int, int>,
) -> bool {
    ch_at(src, pos) == 71 ==> {
        &&& global_slot(src, pos) < base
        &&& !pending_ref(iv, refs, global_slot(src, pos))
        &&& iv.m[LABV + global_label(src, pos)] >= 0 ==> global_slot(src, pos) != 0
    }
}

/// The words that refer to labels of the current unit, after the
/// directive at `pos`.
pub open spec fn refs_after(iv: ImageView, src: Seq<u8>, pos: int, refs: Map<int, int>) -> Map<
    int,
    int,
> {
    if ch_at(src, pos) == 90 {
        Map::empty()
    } else {
        match link_made(iv, src, pos) {
            Some((a, n)) => refs.insert(a, n),
            None => refs,
        }
    }
}

/// The references in the code of a unit that ends, each with the
/// address at which its label was defined, added to those of the units
/// before.
pub open spec fn close_refs(m: Seq<i16>, refs: Map<int, int>, done: Map<int, int>, base: int) -> Map<
    int,
    int,
> {
    Map::new(
        |a: int| done.dom().contains(a) || (refs.dom().contains(a) && a >= base),
        |a: int|
            if done.dom().contains(a) {
                done[a]
            } else {
                -(m[LABV + refs[a]] as int)
            },
    )
}

/// The references of ended units after the directive at `pos`.
pub open spec fn done_after(
    iv: ImageView,
    src: Seq<u8>,
    pos: int,
    refs: Map<int, int>,
    done: Map<int, int>,
    base: int,
) -> Map<int, int> {
    if ch_at(src, pos) == 90 {
        close_refs(iv.m, refs, done, base)
    } else {
        done
    }
}

/// Every `G` directive from `pos` on is tame.
pub open spec fn tame_from(
    iv: ImageView,
    src: Seq<u8>,
    pos: int,
    base: int,
    refs: Map<int, int>,
) -> bool
    decreases src.len() - pos,
{
    if pos < 0 || pos >= src.len() {
        true
    } else {
        match directive_spec(iv, src, pos) {
            Err(_) => true,
            Ok((iv2, c2)) => global_tame(iv, src, pos, base, refs) && (pos < c2 <= src.len()
                ==> tame_from(iv2, src, c2, base, refs_after(iv, src, pos, refs))),
        }
    }
}

/// Every reference that assembly from `pos` on makes in emitted code,
/// and those in `refs` and `done` before it, each with the address at
/// which its label is defined in its unit.
pub open spec fn wanted_from(
    iv: ImageView,
    src: Seq<u8>,
    pos: int,
    refs: Map<int, int>,
    done: Map<int, int>,
    base: int,
) -> Map<int, int>
    decreases src.len() - pos,
{
    if pos < 0 || pos >= src.len() {
        close_refs(iv.m, refs, done, base)
    } else {
        match directive_spec(iv, src, pos) {
            Err(_) => done,
            Ok((iv2, c2)) => if pos < c2 <= src.len() {
                wanted_from(
                    iv2,
                    src,
                    c2,
                    refs_after(iv, src, pos, refs),
                    done_after(iv, src, pos, refs, done, base),
                    base,
                )
            } else {
                done
            },
        }
    }
}

/// The state of label `n`. Once it is defined, each of its references
/// holds its address. Before that its table entry is its youngest
/// reference, and each reference holds the next older one, the oldest
/// holds 0.
pub open spec fn label_linked(m: Seq<i16>, refs: Map<int, int>, age: Map<int, int>, n: int) -> bool {
    let e = m[LABV + n] as int;
    if e < 0 {
        forall|a: int| #[trigger] is_ref(refs, a, n) ==> m[a] == -e
    } else {
        &&& e == 0 || is_ref(refs, e, n)
        &&& forall|a: int| #[trigger]
            is_ref(refs, a, n) ==> e != 0 && age[a] <= age[e] && 0 <= m[a] && (m[a] == 0 || (
            is_ref(refs, m[a] as int, n) && age[m[a] as int] < age[a]))
        &&& forall|a: int, b: int| #[trigger]
            is_ref(refs, a, n) && #[trigger] is_ref(refs, b, n) && age[b] < age[a] ==> m[a] != 0
                && age[b] <= age[m[a] as int]
    }
}

/// The table entry of label `n` is 0, the address of a word below the
/// emit position, or minus an address at which code of this assembly
/// was emitted.
pub open spec fn entry_ok(iv: ImageView, base: int, n: int) -> bool {
    let e = iv.m[LABV + n] as int;
    if e < 0 {
        base <= -e <= iv.lomem
    } else {
        e < iv.lomem
    }
}

/// The image and the bookkeeping agree: every label is in the state
/// that `label_linked` describes, no two references have the same age,
/// and the references of ended units hold what they must.
pub open spec fn linked(
    iv: ImageView,
    refs: Map<int, int>,
    done: Map<int, int>,
    base: int,
    age: Map<int, int>,
    now: int,
) -> bool {
    &&& image_wf(iv)
    &&& 1 <= base <= iv.lomem
    &&& forall|a: int| #[trigger]
        refs.dom().contains(a) ==> 0 < a < iv.lomem && 0 <= refs[a] < LABVCOUNT
            && !done.dom().contains(a) && age[a] < now
    &&& forall|a: int, b: int| #[trigger]
        refs.dom().contains(a) && #[trigger] refs.dom().contains(b) && a != b ==> age[a] != age[b]
    &&& forall|a: int| #[trigger]
        done.dom().contains(a) ==> base <= a < iv.lomem && iv.m[a] == done[a] && base <= done[a]
            <= iv.lomem
    &&& iv.cp == 1 ==> base <= iv.lomem - 1 && !refs.dom().contains(iv.lomem - 1)
        && !done.dom().contains(iv.lomem - 1)
    &&& forall|n: int| 0 <= n < LABVCOUNT ==> #[trigger] entry_ok(iv, base, n)
    &&& forall|n: int| 0 <= n < LABVCOUNT ==> #[trigger] label_linked(iv.m, refs, age, n)
}

/// Word `a` is on the part of the chain of label `n` that starts at `k`.
spec fn on_chain(refs: Map<int, int>, age: Map<int, int>, n: int, k: int, a: int) -> bool {
    is_ref(refs, a, n) && k != 0 && age[a] <= age[k]
}

/// Patching a chain that runs from `k` through the references of label
/// `n`, youngest first, gives each of them the target and changes
/// nothing else.
proof fn lemma_patch_linked(
    m: Seq<i16>,
    k: int,
    target: i16,
    fuel: nat,
    n: int,
    refs: Map<int, int>,
    age: Map<int, int>,
)
    requires
        m.len() == WORDCOUNT,
        patch_chain(m, k, target, fuel) is Some,
        0 <= k,
        k == 0 || is_ref(refs, k, n),
        forall|a: int| #[trigger] is_ref(refs, a, n) ==> 0 < a < LABV,
        forall|a: int, b: int| #[trigger]
            is_ref(refs, a, n) && #[trigger] is_ref(refs, b, n) && a != b ==> age[a] != age[b],
        forall|a: int| #[trigger]
            on_chain(refs, age, n, k, a) ==> 0 <= m[a] && (m[a] == 0 || (is_ref(
                refs,
                m[a] as int,
                n,
            ) && age[m[a] as int] < age[a])),
        forall|a: int, b: int| #[trigger]
            on_chain(refs, age, n, k, a) && #[trigger] is_ref(refs, b, n) && age[b] < age[a]
                ==> m[a] != 0 && age[b] <= age[m[a] as int],
    ensures
        patch_chain(m, k, target, fuel)->Some_0.len() == m.len(),
        forall|a: int| #[trigger]
            on_chain(refs, age, n, k, a) ==> patch_chain(m, k, target, fuel)->Some_0[a] == target,
        forall|x: int|
            0 <= x < m.len() && !on_chain(refs, age, n, k, x) ==> #[trigger] patch_chain(
                m,
                k,
                target,
                fuel,
            )->Some_0[x] == m[x],
    decreases fuel,
{
    if k > 0 {
        let m1 = m.update(k, target);
        let next = m[k] as int;
        assert(on_chain(refs, age, n, k, k));
        assert forall|a: int| #[trigger] on_chain(refs, age, n, next, a) implies on_chain(
            refs,
            age,
            n,
            k,
            a,
        ) && a != k && m1[a] == m[a] by {}
        assert forall|a: int| #[trigger] on_chain(refs, age, n, next, a) implies 0 <= m1[a] && (
        m1[a] == 0 || (is_ref(refs, m1[a] as int, n) && age[m1[a] as int] < age[a])) by {
            assert(on_chain(refs, age, n, k, a));
        }
        assert forall|a: int, b: int| #[trigger]
            on_chain(refs, age, n, next, a) && #[trigger] is_ref(refs, b, n) && age[b]
                < age[a] implies m1[a] != 0 && age[b] <= age[m1[a] as int] by {
            assert(on_chain(refs, age, n, k, a));
        }
        lemma_patch_linked(m1, next, target, (fuel - 1) as nat, n, refs, age);
        let r = patch_chain(m, k, target, fuel)->Some_0;
        assert(r == patch_chain(m1, next, target, (fuel - 1) as nat)->Some_0);
        assert forall|a: int| #[trigger] on_chain(refs, age, n, k, a) implies r[a] == target by {
            if a == k {
                assert(!on_chain(refs, age, n, next, k));
                assert(r[k] == m1[k]);
            } else {
                assert(is_ref(refs, a, n) && is_ref(refs, k, n));
                assert(age[a] < age[k]);
                assert(on_chain(refs, age, n, next, a));
            }
        }
        assert forall|x: int| 0 <= x < m.len() && !on_chain(refs, age, n, k, x) implies #[trigger] r[x]
            == m[x] by {
            assert(!on_chain(refs, age, n, next, x));
            assert(r[x] == m1[x]);
        }
    }
}

/// Words that are no reference and no table entry may change, and code
/// may be emitted, without harm to the bookkeeping.
proof fn lemma_linked_frame(
    iv: ImageView,
    iv2: ImageView,
    refs: Map<int, int>,
    done: Map<int, int>,
    base: int,
    age: Map<int, int>,
    now: int,
)
    requires
        linked(iv, refs, done, base, age, now),
        image_wf(iv2),
        iv.lomem <= iv2.lomem,
        forall|x: int|
            0 <= x < WORDCOUNT && (refs.dom().contains(x) || done.dom().contains(x) || LABV <= x)
                ==> #[trigger] iv2.m[x] == iv.m[x],
        iv2.cp == 1 ==> base <= iv2.lomem - 1 && !refs.dom().contains(iv2.lomem - 1)
            && !done.dom().contains(iv2.lomem - 1),
    ensures
        linked(iv2, refs, done, base, age, now),
{
    assert forall|n: int| 0 <= n < LABVCOUNT implies #[trigger] entry_ok(iv2, base, n) by {
        assert(entry_ok(iv, base, n));
        assert(iv2.m[LABV + n] == iv.m[LABV + n]);
    }
    assert forall|n: int| 0 <= n < LABVCOUNT implies #[trigger] label_linked(iv2.m, refs, age, n) by {
        assert(label_linked(iv.m, refs, age, n));
        assert(iv2.m[LABV + n] == iv.m[LABV + n]);
        assert forall|a: int| #[trigger] is_ref(refs, a, n) implies iv2.m[a] == iv.m[a] by {}
    }
    assert forall|a: int| #[trigger] done.dom().contains(a) implies base <= a < iv2.lomem
        && iv2.m[a] == done[a] && base <= done[a] <= iv2.lomem by {
        assert(iv2.m[a] == iv.m[a]);
    }
}

/// A new reference at `a` to label `lab` joins the bookkeeping as the
/// youngest: where the label is defined the word holds its address,
/// else the word becomes the head of the label's chain.
proof fn lemma_linked_ref(
    iv: ImageView,
    iv2: ImageView,
    a: int,
    lab: int,
    refs: Map<int, int>,
    done: Map<int, int>,
    base: int,
    age: Map<int, int>,
    now: int,
)
    requires
        linked(iv, refs, done, base, age, now),
        image_wf(iv2),
        iv.lomem <= iv2.lomem,
        0 < a < iv2.lomem,
        iv.lomem <= a || a < base,
        !pending_ref(iv, refs, a),
        iv2.cp == 0 || (iv2.cp == iv.cp && iv2.lomem == iv.lomem && a < base),
        0 <= lab < LABVCOUNT,
        forall|x: int|
            0 <= x < WORDCOUNT && x != a && x != LABV + lab && (refs.dom().contains(x)
                || done.dom().contains(x) || LABV <= x) ==> #[trigger] iv2.m[x] == iv.m[x],
        iv.m[LABV + lab] < 0 ==> iv2.m[a] == -iv.m[LABV + lab] && iv2.m[LABV + lab] == iv.m[LABV
            + lab],
        iv.m[LABV + lab] >= 0 ==> iv2.m[a] == iv.m[LABV + lab] && iv2.m[LABV + lab] == a,
    ensures
        linked(iv2, refs.insert(a, lab), done, base, age.insert(a, now), now + 1),
{
    let refs2 = refs.insert(a, lab);
    let age2 = age.insert(a, now);
    let m = iv.m;
    let m2 = iv2.m;
    assert(!done.dom().contains(a));
    assert forall|x: int| #[trigger] refs2.dom().contains(x) implies 0 < x < iv2.lomem && 0
        <= refs2[x] < LABVCOUNT && !done.dom().contains(x) && age2[x] < now + 1 by {
        if x != a {
            assert(refs.dom().contains(x));
        }
    }
    assert forall|x: int, y: int| #[trigger]
        refs2.dom().contains(x) && #[trigger] refs2.dom().contains(y) && x != y implies age2[x]
        != age2[y] by {
        if x != a {
            assert(refs.dom().contains(x));
        }
        if y != a {
            assert(refs.dom().contains(y));
        }
    }
    assert forall|n: int| 0 <= n < LABVCOUNT implies #[trigger] entry_ok(iv2, base, n) by {
        assert(entry_ok(iv, base, n));
        if n != lab {
            assert(m2[LABV + n] == m[LABV + n]);
        }
    }
    assert forall|n: int| 0 <= n < LABVCOUNT implies #[trigger] label_linked(m2, refs2, age2, n) by {
        assert(label_linked(m, refs, age, n));
        assert(entry_ok(iv, base, n));
        let e = m[LABV + n] as int;
        assert forall|x: int| #[trigger] is_ref(refs2, x, n) && x != a implies is_ref(refs, x, n)
            && m2[x] == m[x] && age2[x] == age[x] && age[x] < now by {
            assert(refs.dom().contains(x));
        }
        if n != lab {
            assert(m2[LABV + n] == m[LABV + n]);
            assert(!is_ref(refs2, a, n));
            if e >= 0 {
                assert(!is_ref(refs, a, n));
                assert forall|x: int| #[trigger] is_ref(refs2, x, n) implies e != 0 && age2[x]
                    <= age2[e] && 0 <= m2[x] && (m2[x] == 0 || (is_ref(refs2, m2[x] as int, n)
                    && age2[m2[x] as int] < age2[x])) by {
                    assert(is_ref(refs, x, n));
                    assert(is_ref(refs, e, n));
                }
                assert forall|x: int, b: int| #[trigger]
                    is_ref(refs2, x, n) && #[trigger] is_ref(refs2, b, n) && age2[b]
                        < age2[x] implies m2[x] != 0 && age2[b] <= age2[m2[x] as int] by {
                    assert(is_ref(refs, x, n) && is_ref(refs, b, n));
                }
            } else {
                assert forall|x: int| #[trigger] is_ref(refs2, x, n) implies m2[x] == -e by {
                    assert(is_ref(refs, x, n));
                }
            }
        } else if e < 0 {
            assert forall|x: int| #[trigger] is_ref(refs2, x, n) implies m2[x] == -e by {
                if x != a {
                    assert(is_ref(refs, x, n));
                }
            }
        } else {
            assert(m2[LABV + n] == a);
            assert(is_ref(refs2, a, n));
            assert(!is_ref(refs, a, n));
            assert forall|x: int| #[trigger] is_ref(refs2, x, n) implies a != 0 && age2[x]
                <= age2[a] && 0 <= m2[x] && (m2[x] == 0 || (is_ref(refs2, m2[x] as int, n)
                && age2[m2[x] as int] < age2[x])) by {
                if x != a {
                    assert(is_ref(refs, x, n));
                } else if e != 0 {
                    assert(is_ref(refs, e, n));
                    assert(refs.dom().contains(e));
                }
            }
            assert forall|x: int, b: int| #[trigger]
                is_ref(refs2, x, n) && #[trigger] is_ref(refs2, b, n) && age2[b]
                    < age2[x] implies m2[x] != 0 && age2[b] <= age2[m2[x] as int] by {
                if x != a {
                    assert(is_ref(refs, x, n));
                    if b != a {
                        assert(is_ref(refs, b, n));
                    }
                } else {
                    assert(is_ref(refs, b, n));
                    assert(is_ref(refs, e, n));
                }
            }
        }
    }
    assert forall|x: int| #[trigger] done.dom().contains(x) implies base <= x < iv2.lomem && m2[x]
        == done[x] && base <= done[x] <= iv2.lomem by {
        assert(m2[x] == m[x]);
    }
}

/// A label definition gives every reference of the label its address.
proof fn lemma_linked_define(
    iv: ImageView,
    src: Seq<u8>,
    pos: int,
    refs: Map<int, int>,
    done: Map<int, int>,
    base: int,
    age: Map<int, int>,
    now: int,
)
    requires
        linked(iv, refs, done, base, age, now),
        define_spec(iv, src, pos) is Ok,
    ensures
        linked(define_spec(iv, src, pos)->Ok_0.0, refs, done, base, age, now),
{
    let n = rdn_spec(src, pos).1 as int;
    let e = iv.m[LABV + n] as int;
    let t = iv.lomem as i16;
    let m = iv.m;
    assert(label_linked(m, refs, age, n));
    assert(entry_ok(iv, base, n));
    assert forall|a: int| #[trigger] is_ref(refs, a, n) implies 0 < a < LABV by {}
    assert forall|a: int, b: int| #[trigger]
        is_ref(refs, a, n) && #[trigger] is_ref(refs, b, n) && a != b implies age[a] != age[b] by {
        assert(refs.dom().contains(a) && refs.dom().contains(b));
    }
    lemma_patch_linked(m, e, t, WORDCOUNT as nat, n, refs, age);
    let m2 = patch_chain(m, e, t, WORDCOUNT as nat)->Some_0;
    let iv2 = define_spec(iv, src, pos)->Ok_0.0;
    let m3 = iv2.m;
    assert(m3 == m2.update(LABV + n, (-iv.lomem) as i16));
    assert forall|r: int| 0 <= r < LABVCOUNT implies #[trigger] entry_ok(iv2, base, r) by {
        assert(entry_ok(iv, base, r));
        assert(!on_chain(refs, age, n, e, LABV + r));
        assert(m2[LABV + r] == m[LABV + r]);
    }
    assert forall|r: int| 0 <= r < LABVCOUNT implies #[trigger] label_linked(m3, refs, age, r) by {
        assert(label_linked(m, refs, age, r));
        assert(!on_chain(refs, age, n, e, LABV + r));
        assert(m2[LABV + r] == m[LABV + r]);
        if r == n {
            assert forall|a: int| #[trigger] is_ref(refs, a, r) implies m3[a] == iv.lomem by {
                assert(on_chain(refs, age, n, e, a));
                assert(m2[a] == t);
            }
        } else {
            assert forall|a: int| #[trigger] is_ref(refs, a, r) implies m3[a] == m[a] by {
                assert(!on_chain(refs, age, n, e, a));
                assert(m2[a] == m[a]);
            }
        }
    }
    assert forall|a: int| #[trigger] done.dom().contains(a) implies base <= a < iv2.lomem && m3[a]
        == done[a] && base <= done[a] <= iv2.lomem by {
        assert(!on_chain(refs, age, n, e, a));
        assert(m2[a] == m[a]);
    }
}

/// At the end of a unit each reference holds the address at which its
/// label was defined.
proof fn lemma_linked_close(
    iv: ImageView,
    refs: Map<int, int>,
    done: Map<int, int>,
    base: int,
    age: Map<int, int>,
    now: int,
)
    requires
        linked(iv, refs, done, base, age, now),
        close_unit(iv) is Ok,
    ensures
        linked(
            close_unit(iv)->Ok_0,
            Map::empty(),
            close_refs(iv.m, refs, done, base),
            base,
            age,
            now,
        ),
{
    let iv2 = close_unit(iv)->Ok_0;
    let done2 = close_refs(iv.m, refs, done, base);
    let none = Map::<int, int>::empty();
    lemma_first_unset(iv.m, 0);
    assert forall|a: int| #[trigger] refs.dom().contains(a) && a >= base implies iv.m[a]
        == done2[a] && base <= done2[a] <= iv.lomem by {
        let n = refs[a];
        assert(label_linked(iv.m, refs, age, n));
        assert(entry_ok(iv, base, n));
        assert(is_ref(refs, a, n));
        assert(iv.m[LABV + n] <= 0);
    }
    assert forall|a: int| #[trigger] done2.dom().contains(a) implies base <= a < iv2.lomem
        && iv2.m[a] == done2[a] && base <= done2[a] <= iv2.lomem by {
        if !done.dom().contains(a) {
            assert(refs.dom().contains(a));
        }
    }
    assert forall|n: int| 0 <= n < LABVCOUNT implies #[trigger] entry_ok(iv2, base, n) by {}
    assert forall|n: int| 0 <= n < LABVCOUNT implies #[trigger] label_linked(iv2.m, none, age, n) by {}
}

/// The ages after the directive at `pos`: the word that it makes refer
/// to a label is the youngest.
spec fn age_after(iv: ImageView, src: Seq<u8>, pos: int, age: Map<int, int>, now: int) -> Map<
    int,
    int,
> {
    if ch_at(src, pos) == 90 {
        age
    } else {
        match link_made(iv, src, pos) {
            Some((a, n)) => age.insert(a, now),
            None => age,
        }
    }
}

/// A label definition, a blank, character data or a unit end keeps the
/// bookkeeping in agreement.
#[verifier::rlimit(60)]
proof fn lemma_step_plain(
    iv: ImageView,
    src: Seq<u8>,
    pos: int,
    refs: Map<int, int>,
    done: Map<int, int>,
    base: int,
    age: Map<int, int>,
    now: int,
)
    requires
        linked(iv, refs, done, base, age, now),
        0 <= pos < src.len(),
        directive_spec(iv, src, pos) is Ok,
        global_tame(iv, src, pos, base, refs),
        is_digit(ch_at(src, pos)) || ch_at(src, pos) == 36 || ch_at(src, pos) == 32 || ch_at(src, pos) == 10 || ch_at(src, pos) == 67 || ch_at(src, pos) == 90,
    ensures
        linked(
            directive_spec(iv, src, pos)->Ok_0.0,
            refs_after(iv, src, pos, refs),
            done_after(iv, src, pos, refs, done, base),
            base,
            age_after(iv, src, pos, age, now),
            now + 1,
        ),
{
    let c = ch_at(src, pos);
    let iv2 = directive_spec(iv, src, pos)->Ok_0.0;
    lemma_directive_keeps_wf(iv, src, pos);
    if is_digit(c) {
        lemma_linked_define(iv, src, pos, refs, done, base, age, now);
        lemma_linked_older(iv2, refs, done, base, age, now);
    } else if c == 36 || c == 32 || c == 10 {
        lemma_linked_older(iv, refs, done, base, age, now);
    } else if c == 67 {
        lemma_linked_frame(iv, iv2, refs, done, base, age, now);
        lemma_linked_older(iv2, refs, done, base, age, now);
    } else {
        lemma_linked_close(iv, refs, done, base, age, now);
        lemma_linked_older(
            iv2,
            Map::empty(),
            close_refs(iv.m, refs, done, base),
            base,
            age,
            now,
        );
    }
}

/// An instruction keeps the bookkeeping in agreement.
#[verifier::rlimit(60)]
proof fn lemma_step_instr(
    iv: ImageView,
    src: Seq<u8>,
    pos: int,
    refs: Map<int, int>,
    done: Map<int, int>,
    base: int,
    age: Map<int, int>,
    now: int,
)
    requires
        linked(iv, refs, done, base, age, now),
        0 <= pos < src.len(),
        directive_spec(iv, src, pos) is Ok,
        global_tame(iv, src, pos, base, refs),
        fn_code(ch_at(src, pos)) >= 0,
    ensures
        linked(
            directive_spec(iv, src, pos)->Ok_0.0,
            refs_after(iv, src, pos, refs),
            done_after(iv, src, pos, refs, done, base),
            base,
            age_after(iv, src, pos, age, now),
            now + 1,
        ),
{
    let c = ch_at(src, pos);
    let iv2 = directive_spec(iv, src, pos)->Ok_0.0;
    lemma_directive_keeps_wf(iv, src, pos);
    let at = operand_pos(src, pos);
    if ch_at(src, at) == 76 {
        let lab = rdn_spec(src, rch_spec(src, at)).1 as int;
        assert(entry_ok(iv, base, lab));
        lemma_linked_ref(iv, iv2, iv.lomem + 1, lab, refs, done, base, age, now);
    } else {
        lemma_linked_frame(iv, iv2, refs, done, base, age, now);
        lemma_linked_older(iv2, refs, done, base, age, now);
    }
}

/// A data word keeps the bookkeeping in agreement.
#[verifier::rlimit(60)]
proof fn lemma_step_data(
    iv: ImageView,
    src: Seq<u8>,
    pos: int,
    refs: Map<int, int>,
    done: Map<int, int>,
    base: int,
    age: Map<int, int>,
    now: int,
)
    requires
        linked(iv, refs, done, base, age, now),
        0 <= pos < src.len(),
        directive_spec(iv, src, pos) is Ok,
        global_tame(iv, src, pos, base, refs),
        ch_at(src, pos) == 68,
    ensures
        linked(
            directive_spec(iv, src, pos)->Ok_0.0,
            refs_after(iv, src, pos, refs),
            done_after(iv, src, pos, refs, done, base),
            base,
            age_after(iv, src, pos, age, now),
            now + 1,
        ),
{
    let c = ch_at(src, pos);
    let iv2 = directive_spec(iv, src, pos)->Ok_0.0;
    lemma_directive_keeps_wf(iv, src, pos);
    if ch_at(src, rch_spec(src, pos)) == 76 {
        let lab = rdn_spec(src, rch_spec(src, rch_spec(src, pos))).1 as int;
        assert(entry_ok(iv, base, lab));
        lemma_linked_ref(iv, iv2, iv.lomem, lab, refs, done, base, age, now);
    } else {
        lemma_linked_frame(iv, iv2, refs, done, base, age, now);
        lemma_linked_older(iv2, refs, done, base, age, now);
    }
}

/// A tame `G` directive keeps the bookkeeping in agreement.
#[verifier::rlimit(60)]
proof fn lemma_step_global(
    iv: ImageView,
    src: Seq<u8>,
    pos: int,
    refs: Map<int, int>,
    done: Map<int, int>,
    base: int,
    age: Map<int, int>,
    now: int,
)
    requires
        linked(iv, refs, done, base, age, now),
        0 <= pos < src.len(),
        directive_spec(iv, src, pos) is Ok,
        global_tame(iv, src, pos, base, refs),
        ch_at(src, pos) == 71,
    ensures
        linked(
            directive_spec(iv, src, pos)->Ok_0.0,
            refs_after(iv, src, pos, refs),
            done_after(iv, src, pos, refs, done, base),
            base,
            age_after(iv, src, pos, age, now),
            now + 1,
        ),
{
    let c = ch_at(src, pos);
    let iv2 = directive_spec(iv, src, pos)->Ok_0.0;
    lemma_directive_keeps_wf(iv, src, pos);
    let slot = global_slot(src, pos);
    let lab = global_label(src, pos);
    assert(entry_ok(iv, base, lab));
    if slot > 0 {
        lemma_linked_ref(iv, iv2, slot, lab, refs, done, base, age, now);
    } else {
        lemma_linked_frame(iv, iv2, refs, done, base, age, now);
        lemma_linked_older(iv2, refs, done, base, age, now);
    }
}

/// A directive that succeeds keeps the image and the bookkeeping in
/// agreement.
proof fn lemma_linked_directive(
    iv: ImageView,
    src: Seq<u8>,
    pos: int,
    refs: Map<int, int>,
    done: Map<int, int>,
    base: int,
    age: Map<int, int>,
    now: int,
)
    requires
        linked(iv, refs, done, base, age, now),
        0 <= pos < src.len(),
        directive_spec(iv, src, pos) is Ok,
        global_tame(iv, src, pos, base, refs),
    ensures
        linked(
            directive_spec(iv, src, pos)->Ok_0.0,
            refs_after(iv, src, pos, refs),
            done_after(iv, src, pos, refs, done, base),
            base,
            age_after(iv, src, pos, age, now),
            now + 1,
        ),
{
    let c = ch_at(src, pos);
    if fn_code(c) >= 0 {
        lemma_step_instr(iv, src, pos, refs, done, base, age, now);
    } else if c == 68 {
        lemma_step_data(iv, src, pos, refs, done, base, age, now);
    } else if c == 71 {
        lemma_step_global(iv, src, pos, refs, done, base, age, now);
    } else {
        lemma_step_plain(iv, src, pos, refs, done, base, age, now);
    }
}

/// The bookkeeping stays in agreement as time goes by.
proof fn lemma_linked_older(
    iv: ImageView,
    refs: Map<int, int>,
    done: Map<int, int>,
    base: int,
    age: Map<int, int>,
    now: int,
)
    requires
        linked(iv, refs, done, base, age, now),
    ensures
        linked(iv, refs, done, base, age, now + 1),
{
}

/// The references on record in emitted code are among the wanted ones.
proof fn lemma_wanted_grows(
    iv: ImageView,
    src: Seq<u8>,
    pos: int,
    refs: Map<int, int>,
    done: Map<int, int>,
    base: int,
)
    requires
        0 <= pos,
        assemble_from(iv, src, pos) is Ok,
    ensures
        forall|a: int|
            (refs.dom().contains(a) && a >= base) || done.dom().contains(a)
                ==> #[trigger] wanted_from(iv, src, pos, refs, done, base).dom().contains(a),
    decreases src.len() - pos,
{
    let w = wanted_from(iv, src, pos, refs, done, base);
    if pos < src.len() {
        lemma_directive_moves(iv, src, pos);
        let next = directive_spec(iv, src, pos)->Ok_0;
        let refs2 = refs_after(iv, src, pos, refs);
        let done2 = done_after(iv, src, pos, refs, done, base);
        assert(w == wanted_from(next.0, src, next.1, refs2, done2, base));
        assert(assemble_from(iv, src, pos) == assemble_from(next.0, src, next.1));
        lemma_wanted_grows(next.0, src, next.1, refs2, done2, base);
        assert forall|a: int|
            (refs.dom().contains(a) && a >= base) || done.dom().contains(a) implies #[trigger] w.dom().contains(
            a,
        ) by {
            assert((refs2.dom().contains(a) && a >= base) || done2.dom().contains(a));
        }
    }
}

#[verifier::rlimit(60)]
proof fn lemma_wanted_from(
    iv: ImageView,
    src: Seq<u8>,
    pos: int,
    refs: Map<int, int>,
    done: Map<int, int>,
    base: int,
    age: Map<int, int>,
    now: int,
)
    requires
        linked(iv, refs, done, base, age, now),
        0 <= pos,
        assemble_from(iv, src, pos) is Ok,
        tame_from(iv, src, pos, base, refs),
    ensures
        forall|a: int| #[trigger]
            wanted_from(iv, src, pos, refs, done, base).dom().contains(a) ==> {
                &&& base <= a < assemble_from(iv, src, pos)->Ok_0.lomem
                &&& assemble_from(iv, src, pos)->Ok_0.m[a] == wanted_from(
                    iv,
                    src,
                    pos,
                    refs,
                    done,
                    base,
                )[a]
                &&& base <= wanted_from(iv, src, pos, refs, done, base)[a] <= assemble_from(
                    iv,
                    src,
                    pos,
                )->Ok_0.lomem
            },
    decreases src.len() - pos,
{
    let w = wanted_from(iv, src, pos, refs, done, base);
    let r = assemble_from(iv, src, pos)->Ok_0;
    if pos < src.len() {
        lemma_directive_moves(iv, src, pos);
        lemma_linked_directive(iv, src, pos, refs, done, base, age, now);
        let next = directive_spec(iv, src, pos)->Ok_0;
        let refs2 = refs_after(iv, src, pos, refs);
        let done2 = done_after(iv, src, pos, refs, done, base);
        assert(w == wanted_from(next.0, src, next.1, refs2, done2, base));
        assert(assemble_from(iv, src, pos) == assemble_from(next.0, src, next.1));
        assert(tame_from(next.0, src, next.1, base, refs2));
        lemma_wanted_from(
            next.0,
            src,
            next.1,
            refs2,
            done2,
            base,
            age_after(iv, src, pos, age, now),
            now + 1,
        );
    } else {
        lemma_linked_close(iv, refs, done, base, age, now);
        assert(w == close_refs(iv.m, refs, done, base));
        assert(r == close_unit(iv)->Ok_0);
        assert forall|a: int| #[trigger] w.dom().contains(a) implies base <= a < r.lomem && r.m[a]
            == w[a] && base <= w[a] <= r.lomem by {}
    }
}

/// Every reference that assembling `src` makes in emitted code, with
/// the address at which its label is defined in its unit.
pub open spec fn wanted(iv: ImageView, src: Seq<u8>) -> Map<int, int> {
    wanted_from(
        ImageView { m: clear_labels(iv.m), lomem: iv.lomem, cp: 0 },
        src,
        skip_comments(src, 0),
        Map::empty(),
        Map::empty(),
        iv.lomem,
    )
}

/// Every `G` directive of `src` names a slot that lies below the code
/// that this assembly emits and is not, at that time, on the chain of a
/// label that is yet to be defined; and no `G` directive on such a
/// label names word 0.
pub open spec fn globals_tame(iv: ImageView, src: Seq<u8>) -> bool {
    tame_from(
        ImageView { m: clear_labels(iv.m), lomem: iv.lomem, cp: 0 },
        src,
        skip_comments(src, 0),
        iv.lomem,
        Map::empty(),
    )
}

/// After a source was assembled without an error, every operand word
/// and every data word that was emitted for a reference to a label
/// holds the address at which that label was defined in its unit,
/// whether the reference came before the definition or after it: never
/// 0, never a link of a chain. That address lies in the code that this
/// assembly emitted. This is stated for sources whose `G` directives
/// leave the emitted code and the chains alone, as `globals_tame` says.
pub proof fn lemma_references_resolved(iv: ImageView, src: Seq<u8>)
    requires
        image_wf(iv),
        1 <= iv.lomem,
        assemble_spec(iv, src) is Ok,
        globals_tame(iv, src),
    ensures
        forall|a: int| #[trigger]
            wanted(iv, src).dom().contains(a) ==> {
                &&& iv.lomem <= a < assemble_spec(iv, src)->Ok_0.lomem
                &&& assemble_spec(iv, src)->Ok_0.m[a] == wanted(iv, src)[a]
                &&& iv.lomem <= wanted(iv, src)[a] <= assemble_spec(iv, src)->Ok_0.lomem
            },
{
    let start = ImageView { m: clear_labels(iv.m), lomem: iv.lomem, cp: 0 };
    let none = Map::<int, int>::empty();
    lemma_skip_comments(src, 0);
    assert forall|n: int| 0 <= n < LABVCOUNT implies #[trigger] entry_ok(start, iv.lomem, n) by {}
    assert forall|n: int| 0 <= n < LABVCOUNT implies #[trigger] label_linked(
        start.m,
        none,
        none,
        n,
    ) by {}
    assert(linked(start, none, none, iv.lomem, none, 0));
    lemma_wanted_from(start, src, skip_comments(src, 0), none, none, iv.lomem, none, 0);
}

/// The reference that a directive makes in emitted code is listed from
/// then on: the map of wanted values for the rest of the source holds it.
pub proof fn lemma_reference_is_wanted(
    iv: ImageView,
    src: Seq<u8>,
    pos: int,
    refs: Map<int, int>,
    done: Map<int, int>,
    base: int,
)
    requires
        0 <= pos < src.len(),
        base <= iv.lomem,
        assemble_from(iv, src, pos) is Ok,
        ref_made(iv, src, pos) is Some,
    ensures
        wanted_from(iv, src, pos, refs, done, base).dom().contains(
            ref_made(iv, src, pos)->Some_0.0,
        ),
{
    lemma_directive_moves(iv, src, pos);
    let next = directive_spec(iv, src, pos)->Ok_0;
    let refs2 = refs_after(iv, src, pos, refs);
    let done2 = done_after(iv, src, pos, refs, done, base);
    assert(ch_at(src, pos) != 90 && ch_at(src, pos) != 71);
    assert(refs2.dom().contains(ref_made(iv, src, pos)->Some_0.0));
    assert(wanted_from(iv, src, pos, refs, done, base) == wanted_from(
        next.0,
        src,
        next.1,
        refs2,
        done2,
        base,
    ));
    assert(assemble_from(iv, src, pos) == assemble_from(next.0, src, next.1));
    lemma_wanted_grows(next.0, src, next.1, refs2, done2, base);
}

/// The number of words that the directive at `pos` emits.
pub open spec fn words_of(iv: ImageView, src: Seq<u8>, pos: int) -> int {
    let c = ch_at(src, pos);
    if is_digit(c) || c == 36 || c == 32 || c == 10 {
        0
    } else if fn_code(c) >= 0 {
        if ch_at(src, operand_pos(src, pos)) == 76 || !(0 <= rdn_spec(
            src,
            operand_pos(src, pos),
        ).1 <= 255) {
            2
        } else {
            1
        }
    } else if c == 67 {
        if iv.cp == 0 {
            1
        } else {
            0
        }
    } else if c == 68 {
        1
    } else {
        0
    }
}

/// The number of words that assembly emits from `pos` on.
pub open spec fn words_from(iv: ImageView, src: Seq<u8>, pos: int) -> int
    decreases src.len() - pos,
{
    if pos < 0 || pos >= src.len() {
        0
    } else {
        match directive_spec(iv, src, pos) {
            Err(_) => 0,
            Ok((iv2, c2)) => if pos < c2 <= src.len() {
                words_of(iv, src, pos) + words_from(iv2, src, c2)
            } else {
                0
            },
        }
    }
}

proof fn lemma_words_from(iv: ImageView, src: Seq<u8>, pos: int)
    requires
        0 <= pos,
        assemble_from(iv, src, pos) is Ok,
    ensures
        assemble_from(iv, src, pos)->Ok_0.lomem == iv.lomem + words_from(iv, src, pos),
    decreases src.len() - pos,
{
    if pos < src.len() {
        lemma_directive_moves(iv, src, pos);
        let next = directive_spec(iv, src, pos)->Ok_0;
        assert(next.0.lomem == iv.lomem + words_of(iv, src, pos));
        lemma_words_from(next.0, src, next.1);
    }
}

/// After a source was assembled without an error, the emit position
/// has moved on by the number of words that its directives emit: two
/// for an instruction on a label or with an operand outside `0 ..= 255`,
/// one for any other instruction, for a data word and for each pair of
/// characters begun, none for any other directive.
pub proof fn lemma_emit_position(iv: ImageView, src: Seq<u8>)
    requires
        assemble_spec(iv, src) is Ok,
    ensures
        assemble_spec(iv, src)->Ok_0.lomem == iv.lomem + words_from(
            ImageView { m: clear_labels(iv.m), lomem: iv.lomem, cp: 0 },
            src,
            skip_comments(src, 0),
        ),
{
    lemma_skip_comments(src, 0);
    lemma_words_from(
        ImageView { m: clear_labels(iv.m), lomem: iv.lomem, cp: 0 },
        src,
        skip_comments(src, 0),
    );
}

} // verus!
