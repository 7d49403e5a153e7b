//! How nonces are split into groups that share one cipher.

use std::ops::Range;
use vstd::prelude::*;

verus! {

/// The nonce at `offset` within a nonce group of `per_aes` nonces. Offsets past the group's end
/// start over at its first nonce.
pub fn calc_nonce(nonce_group: u32, per_aes: u32, offset: usize) -> (nonce: u32)
    requires
        per_aes > 0,
        nonce_group * per_aes + (offset as u32) % per_aes <= u32::MAX,
    ensures
        nonce == nonce_group * per_aes + (offset as u32) % per_aes,
{
    assert(nonce_group * per_aes >= 0) by (nonlinear_arith);
    nonce_group * per_aes + (offset as u32 % per_aes)
}

/// The group that a nonce belongs to.
pub fn calc_nonce_group(nonce: u32, per_aes: u32) -> (group: usize)
    requires
        per_aes > 0,
    ensures
        group == nonce / per_aes,
{
    (nonce / per_aes) as usize
}

/// The first nonce group that a range of nonces touches.
pub open spec fn first_group(nonces: Range<u32>, per_aes: u32) -> int {
    nonces.start as int / per_aes as int
}

/// One past the last nonce group that a range of nonces touches. There is always at least one.
pub open spec fn end_group(nonces: Range<u32>, per_aes: u32) -> int {
    let last = (nonces.end + per_aes - 1) / per_aes as int;
    if first_group(nonces, per_aes) + 1 >= last {
        first_group(nonces, per_aes) + 1
    } else {
        last
    }
}

/// The last group that a range touches is that of its last nonce.
proof fn lemma_end_group(nonces: Range<u32>, per_aes: u32)
    requires
        per_aes > 0,
    ensures
        nonces.start < nonces.end ==> end_group(nonces, per_aes) == (nonces.end - 1)
            / per_aes as int + 1,
        nonces.start >= nonces.end ==> end_group(nonces, per_aes) == first_group(nonces, per_aes)
            + 1,
{
    let p = per_aes as int;
    let start = nonces.start as int;
    let end = nonces.end as int;
    assert((end + p - 1) / p == (end - 1) / p + 1) by (nonlinear_arith)
        requires
            p > 0,
    ;
    if start < end {
        vstd::arithmetic::div_mod::lemma_div_is_ordered(start, end - 1, p);
    } else {
        vstd::arithmetic::div_mod::lemma_div_is_ordered(end - 1, start, p);
    }
}

/// The groups that a range of nonces touches; the group of its start where the range is empty.
pub fn nonce_group_range(nonces: Range<u32>, per_aes: u32) -> (groups: Range<u32>)
    requires
        per_aes > 0,
        nonces.end + per_aes <= u32::MAX,
        first_group(nonces, per_aes) < u32::MAX,
    ensures
        groups.start == first_group(nonces, per_aes),
        groups.end == end_group(nonces, per_aes),
        groups.start == nonces.start / per_aes,
        nonces.start < nonces.end ==> groups.end == (nonces.end - 1) / per_aes as int + 1,
        nonces.start >= nonces.end ==> groups.end == groups.start + 1,
{
    proof {
        lemma_end_group(nonces, per_aes);
    }
    let start_group: u32 = nonces.start / per_aes;
    let end_group: u32 = (nonces.end + per_aes - 1) / per_aes;
    if start_group + 1 >= end_group {
        start_group..start_group + 1
    } else {
        start_group..end_group
    }
}

/// Taking a nonce apart undoes putting it together: a nonce that was calculated for a group
/// belongs to that group.
pub proof fn nonce_belongs_to_its_group(nonce_group: u32, per_aes: u32, offset: usize)
    requires
        per_aes > 0,
    ensures
        (nonce_group * per_aes + (offset as u32) % per_aes) / per_aes as int == nonce_group,
        (nonce_group * per_aes + (offset as u32) % per_aes) % per_aes as int == (offset as u32)
            % per_aes,
{
    let slot = ((offset as u32) % per_aes) as int;
    vstd::arithmetic::div_mod::lemma_fundamental_div_mod_converse(
        nonce_group * per_aes + slot,
        per_aes as int,
        nonce_group as int,
        slot,
    );
}

/// The groups of a range are exactly the groups of its nonces, provided that it has any.
pub proof fn group_range_covers_nonces(nonces: Range<u32>, per_aes: u32, group: int)
    requires
        per_aes > 0,
        nonces.start < nonces.end,
    ensures
        first_group(nonces, per_aes) <= group < end_group(nonces, per_aes) <==> exists|nonce: u32|
            nonces.start <= nonce < nonces.end && #[trigger] (nonce as int / per_aes as int)
                == group,
{
    let p = per_aes as int;
    if first_group(nonces, per_aes) <= group < end_group(nonces, per_aes) {
        let nonce = if group == first_group(nonces, per_aes) {
            nonces.start
        } else {
            (group * p) as u32
        };
        if group != first_group(nonces, per_aes) {
            assert(group * p < nonces.end && group * p > nonces.start && (group * p) / p == group)
                by (nonlinear_arith)
                requires
                    p > 0,
                    group < (nonces.end + p - 1) / p,
                    group > nonces.start as int / p,
            ;
        }
        assert(nonce as int / p == group);
    }
    if exists|nonce: u32|
        nonces.start <= nonce < nonces.end && #[trigger] (nonce as int / per_aes as int) == group {
        let nonce = choose|nonce: u32|
            nonces.start <= nonce < nonces.end && #[trigger] (nonce as int / per_aes as int)
                == group;
        assert(nonces.start as int / p <= nonce as int / p < (nonces.end + p - 1) / p)
            by (nonlinear_arith)
            requires
                p > 0,
                nonces.start <= nonce < nonces.end,
        ;
    }
}

} // verus!
