//! The fixed validator schedule that the epoch index reuses cyclically.
use crate::account::AccountId;
use vstd::prelude::*;

verus! {

/// Block producers per slot, optional chunk-only producers per slot and
/// shard, the shard count, and how many groups the block producers of a slot
/// are split into for chunk production.
#[derive(Debug)]
pub struct ValidatorSchedule {
    pub block_producers: Vec<Vec<AccountId>>,
    pub chunk_only_producers: Vec<Vec<Vec<AccountId>>>,
    pub num_shards: u64,
    pub validator_groups: u64,
}

/// Why a schedule cannot be used.
#[derive(Debug, Clone, Copy, PartialEq, Eq, Structural)]
pub enum ScheduleError {
    /// The schedule has no slot.
    EmptySchedule,
    /// The shard count is zero.
    NoShards,
    /// The group count is zero.
    NoValidatorGroups,
    /// A slot has fewer block producers than groups.
    TooFewBlockProducers,
    /// A shard's share of a slot's block producers runs past their end.
    ShardSliceOutOfRange,
    /// Chunk-only producers are not given for every slot and every shard.
    ChunkOnlyShape,
    /// A chunk-only producer is also a block producer, or is listed twice.
    ChunkOnlyProducerAlreadyValidator,
}

pub open spec fn account_views(s: Seq<AccountId>) -> Seq<Seq<u8>> {
    s.map_values(|a: AccountId| a@)
}

/// The names of a list of lists, one after the other.
pub open spec fn flatten(s: Seq<Vec<AccountId>>) -> Seq<Seq<u8>>
    decreases s.len(),
{
    if s.len() == 0 {
        Seq::empty()
    } else {
        flatten(s.drop_last()) + account_views(s.last()@)
    }
}

pub open spec fn flatten_nested(s: Seq<Vec<Vec<AccountId>>>) -> Seq<Seq<u8>>
    decreases s.len(),
{
    if s.len() == 0 {
        Seq::empty()
    } else {
        flatten_nested(s.drop_last()) + flatten(s.last()@)
    }
}

/// How many block producers of a slot of `len` serve each shard.
pub open spec fn per_shard(len: int, groups: int) -> int {
    len / groups
}

/// Where a shard's share of a slot's block producers starts.
pub open spec fn shard_offset(len: int, num_shards: int, groups: int, s: int) -> int {
    let vps = per_shard(len, groups);
    s * (len / num_shards) / vps * vps
}

impl ValidatorSchedule {
    /// An empty schedule of one shard and one group.
    pub fn new() -> (r: ValidatorSchedule)
        ensures
            r.block_producers@.len() == 0,
            r.chunk_only_producers@.len() == 0,
            r.num_shards == 1,
            r.validator_groups == 1,
    {
        ValidatorSchedule {
            block_producers: Vec::new(),
            chunk_only_producers: Vec::new(),
            num_shards: 1,
            validator_groups: 1,
        }
    }

    pub fn block_producers_per_epoch(self, block_producers: Vec<Vec<AccountId>>) -> (r: ValidatorSchedule)
        ensures
            r.block_producers == block_producers,
            r.chunk_only_producers == self.chunk_only_producers,
            r.num_shards == self.num_shards,
            r.validator_groups == self.validator_groups,
    {
        ValidatorSchedule { block_producers, ..self }
    }

    pub fn chunk_only_producers_per_epoch_per_shard(self, chunk_only_producers: Vec<Vec<Vec<AccountId>>>) -> (r: ValidatorSchedule)
        ensures
            r.block_producers == self.block_producers,
            r.chunk_only_producers == chunk_only_producers,
            r.num_shards == self.num_shards,
            r.validator_groups == self.validator_groups,
    {
        ValidatorSchedule { chunk_only_producers, ..self }
    }

    pub fn num_shards(self, num_shards: u64) -> (r: ValidatorSchedule)
        ensures
            r.block_producers == self.block_producers,
            r.chunk_only_producers == self.chunk_only_producers,
            r.num_shards == num_shards,
            r.validator_groups == self.validator_groups,
    {
        ValidatorSchedule { num_shards, ..self }
    }

    pub fn validator_groups(self, validator_groups: u64) -> (r: ValidatorSchedule)
        ensures
            r.block_producers == self.block_producers,
            r.chunk_only_producers == self.chunk_only_producers,
            r.num_shards == self.num_shards,
            r.validator_groups == validator_groups,
    {
        ValidatorSchedule { validator_groups, ..self }
    }

    pub open spec fn slot_len(&self, e: int) -> int {
        self.block_producers@[e]@.len() as int
    }

    /// Why the schedule cannot be used, checked in this order; `None` when it can.
    pub open spec fn schedule_error(&self) -> Option<ScheduleError> {
        let bps = self.block_producers@;
        let co = self.chunk_only_producers@;
        let n = self.num_shards as int;
        let g = self.validator_groups as int;
        if bps.len() == 0 {
            Some(ScheduleError::EmptySchedule)
        } else if n == 0 {
            Some(ScheduleError::NoShards)
        } else if g == 0 {
            Some(ScheduleError::NoValidatorGroups)
        } else if exists|e: int| 0 <= e < bps.len() && per_shard(#[trigger] self.slot_len(e), g) == 0 {
            Some(ScheduleError::TooFewBlockProducers)
        } else if exists|e: int, s: int|
            0 <= e < bps.len() && 0 <= s < n && #[trigger] shard_offset(self.slot_len(e), n, g, s) + per_shard(
                self.slot_len(e),
                g,
            ) > self.slot_len(e) {
            Some(ScheduleError::ShardSliceOutOfRange)
        } else if co.len() > 0 && (co.len() != bps.len() || exists|e: int|
            0 <= e < co.len() && (#[trigger] co[e])@.len() != n) {
            Some(ScheduleError::ChunkOnlyShape)
        } else if exists|k: int|
            0 <= k < flatten_nested(co).len() && (flatten(bps).contains(#[trigger] flatten_nested(co)[k])
                || flatten_nested(co).take(k).contains(flatten_nested(co)[k])) {
            Some(ScheduleError::ChunkOnlyProducerAlreadyValidator)
        } else {
            None
        }
    }
}

/// Appends the accounts of `s` to `out`.
fn append_accounts(out: &mut Vec<AccountId>, s: &Vec<AccountId>)
    ensures
        account_views(final(out)@) == account_views(old(out)@) + account_views(s@),
{
    let ghost o = account_views(out@);
    let mut j: usize = 0;
    while j < s.len()
        invariant
            0 <= j <= s@.len(),
            o == account_views(old(out)@),
            account_views(out@) == o + account_views(s@).take(j as int),
        decreases s@.len() - j,
    {
        let ghost before = out@;
        out.push(s[j].duplicate());
        proof {
            assert(account_views(out@) =~= account_views(before).push(s@[j as int]@));
            assert(account_views(s@).take(j + 1) =~= account_views(s@).take(j as int).push(s@[j as int]@));
        }
        j = j + 1;
    }
    assert(account_views(s@).take(j as int) =~= account_views(s@));
}

/// The names of a list of lists, one after the other.
pub fn flatten_accounts(s: &Vec<Vec<AccountId>>) -> (r: Vec<AccountId>)
    ensures
        account_views(r@) == flatten(s@),
{
    let mut out: Vec<AccountId> = Vec::new();
    let mut i: usize = 0;
    assert(account_views(out@) =~= Seq::<Seq<u8>>::empty());
    assert(s@.take(0) =~= Seq::<Vec<AccountId>>::empty());
    while i < s.len()
        invariant
            0 <= i <= s@.len(),
            account_views(out@) == flatten(s@.take(i as int)),
        decreases s@.len() - i,
    {
        append_accounts(&mut out, &s[i]);
        proof {
            assert(s@.take(i + 1).drop_last() =~= s@.take(i as int));
        }
        i = i + 1;
    }
    assert(s@.take(i as int) =~= s@);
    out
}

pub fn flatten_nested_accounts(s: &Vec<Vec<Vec<AccountId>>>) -> (r: Vec<AccountId>)
    ensures
        account_views(r@) == flatten_nested(s@),
{
    let mut out: Vec<AccountId> = Vec::new();
    let mut i: usize = 0;
    assert(account_views(out@) =~= Seq::<Seq<u8>>::empty());
    assert(s@.take(0) =~= Seq::<Vec<Vec<AccountId>>>::empty());
    while i < s.len()
        invariant
            0 <= i <= s@.len(),
            account_views(out@) == flatten_nested(s@.take(i as int)),
        decreases s@.len() - i,
    {
        let f = flatten_accounts(&s[i]);
        append_accounts(&mut out, &f);
        proof {
            assert(s@.take(i + 1).drop_last() =~= s@.take(i as int));
        }
        i = i + 1;
    }
    assert(s@.take(i as int) =~= s@);
    out
}

/// Whether one of the first `upto` names of `v` is `a`.
fn contains_account(v: &Vec<AccountId>, upto: usize, a: &AccountId) -> (r: bool)
    requires
        upto <= v@.len(),
    ensures
        r == account_views(v@).take(upto as int).contains(a@),
{
    let mut i: usize = 0;
    while i < upto
        invariant
            0 <= i <= upto <= v@.len(),
            forall|j: int| 0 <= j < i ==> v@[j]@ != a@,
        decreases upto - i,
    {
        if v[i].same_as(a) {
            assert(account_views(v@).take(upto as int)[i as int] == a@);
            return true;
        }
        i = i + 1;
    }
    assert(!account_views(v@).take(upto as int).contains(a@)) by {
        if account_views(v@).take(upto as int).contains(a@) {
            let j = choose|j: int| 0 <= j < upto && account_views(v@).take(upto as int)[j] == a@;
            assert(v@[j]@ == a@);
        }
    }
    false
}

impl ValidatorSchedule {
    /// Whether some chunk-only producer is a block producer or repeats an
    /// earlier chunk-only producer.
    pub fn has_chunk_only_conflict(&self) -> (r: bool)
        ensures
            r == exists|k: int|
                0 <= k < flatten_nested(self.chunk_only_producers@).len() && (flatten(self.block_producers@).contains(
                    #[trigger] flatten_nested(self.chunk_only_producers@)[k],
                ) || flatten_nested(self.chunk_only_producers@).take(k).contains(
                    flatten_nested(self.chunk_only_producers@)[k],
                )),
    {
        let bp = flatten_accounts(&self.block_producers);
        let co = flatten_nested_accounts(&self.chunk_only_producers);
        let ghost fb = flatten(self.block_producers@);
        let ghost fc = flatten_nested(self.chunk_only_producers@);
        assert(account_views(bp@).take(bp@.len() as int) =~= fb);
        let mut k: usize = 0;
        while k < co.len()
            invariant
                0 <= k <= co@.len(),
                fb == account_views(bp@),
                fc == account_views(co@),
                fb == flatten(self.block_producers@),
                fc == flatten_nested(self.chunk_only_producers@),
                account_views(bp@).take(bp@.len() as int) == fb,
                forall|j: int| 0 <= j < k ==> !(fb.contains(#[trigger] fc[j]) || fc.take(j).contains(fc[j])),
            decreases co@.len() - k,
        {
            let in_bp = contains_account(&bp, bp.len(), &co[k]);
            let in_co = contains_account(&co, k, &co[k]);
            if in_bp || in_co {
                assert(fc[k as int] == co@[k as int]@);
                assert(fb.contains(fc[k as int]) || fc.take(k as int).contains(fc[k as int]));
                return true;
            }
            k = k + 1;
        }
        false
    }
}

/// Where a shard's share of a slot of `len` block producers starts.
pub fn slice_offset(len: u64, num_shards: u64, groups: u64, s: u64) -> (r: u128)
    requires
        num_shards > 0,
        groups > 0,
        len / groups > 0,
    ensures
        r == shard_offset(len as int, num_shards as int, groups as int, s as int),
        r <= (s as int) * (len as int / num_shards as int),
{
    let vps = (len / groups) as u128;
    let coef = (len / num_shards) as u128;
    let s128 = s as u128;
    proof {
        assert((s as int) * (coef as int) <= 0xffff_ffff_ffff_ffff * 0xffff_ffff_ffff_ffff) by (nonlinear_arith)
            requires
                s <= 0xffff_ffff_ffff_ffff,
                coef <= 0xffff_ffff_ffff_ffff,
        ;
    }
    let x = s128 * coef;
    let q = x / vps;
    proof {
        assert((q as int) * (vps as int) <= x as int) by (nonlinear_arith)
            requires
                q == (x as int) / (vps as int),
                vps > 0,
                x >= 0,
        ;
    }
    q * vps
}

impl ValidatorSchedule {
    /// The names of the chunk producers of shard `s` in slot `e`: the shard's
    /// share of the slot's block producers, then its chunk-only producers.
    pub open spec fn expected_chunk_producers(&self, e: int, s: int) -> Seq<Seq<u8>> {
        let len = self.slot_len(e);
        let off = shard_offset(len, self.num_shards as int, self.validator_groups as int, s);
        account_views(self.block_producers@[e]@).subrange(off, off + per_shard(len, self.validator_groups as int))
            + if self.chunk_only_producers@.len() > 0 {
            account_views(self.chunk_only_producers@[e]@[s]@)
        } else {
            Seq::empty()
        }
    }

    /// Why the schedule cannot be used, if it cannot.
    pub fn check(&self) -> (r: Option<ScheduleError>)
        ensures
            r == self.schedule_error(),
    {
        let bps = &self.block_producers;
        let n = self.num_shards;
        let g = self.validator_groups;
        if bps.len() == 0 {
            return Some(ScheduleError::EmptySchedule);
        }
        if n == 0 {
            return Some(ScheduleError::NoShards);
        }
        if g == 0 {
            return Some(ScheduleError::NoValidatorGroups);
        }
        let mut e: usize = 0;
        while e < bps.len()
            invariant
                0 <= e <= bps@.len(),
                bps == &self.block_producers,
                bps@.len() > 0,
                g == self.validator_groups,
                n == self.num_shards,
                n > 0,
                g > 0,
                forall|i: int| 0 <= i < e ==> per_shard(#[trigger] self.slot_len(i), g as int) != 0,
            decreases bps@.len() - e,
        {
            if (bps[e].len() as u64) / g == 0 {
                assert(per_shard(self.slot_len(e as int), g as int) == 0);
                return Some(ScheduleError::TooFewBlockProducers);
            }
            e = e + 1;
        }
        let mut e: usize = 0;
        while e < bps.len()
            invariant
                0 <= e <= bps@.len(),
                bps == &self.block_producers,
                bps@.len() > 0,
                g == self.validator_groups,
                n == self.num_shards,
                g > 0,
                n > 0,
                forall|i: int| 0 <= i < bps@.len() ==> per_shard(#[trigger] self.slot_len(i), g as int) != 0,
                forall|i: int, t: int|
                    0 <= i < e && 0 <= t < n ==> #[trigger] shard_offset(self.slot_len(i), n as int, g as int, t)
                        + per_shard(self.slot_len(i), g as int) <= self.slot_len(i),
            decreases bps@.len() - e,
        {
            let len = bps[e].len() as u64;
            assert(self.slot_len(e as int) == len);
            let vps = len / g;
            let mut t: u64 = 0;
            while t < n
                invariant
                    0 <= e < bps@.len(),
                    bps == &self.block_producers,
                    forall|i: int| 0 <= i < bps@.len() ==> per_shard(#[trigger] self.slot_len(i), g as int) != 0,
                    forall|i: int, t: int|
                        0 <= i < e && 0 <= t < n ==> #[trigger] shard_offset(self.slot_len(i), n as int, g as int, t)
                            + per_shard(self.slot_len(i), g as int) <= self.slot_len(i),
                    g == self.validator_groups,
                    n == self.num_shards,
                    g > 0,
                    n > 0,
                    len == self.slot_len(e as int),
                    vps == len / g,
                    vps > 0,
                    forall|u: int|
                        0 <= u < t ==> #[trigger] shard_offset(len as int, n as int, g as int, u) + (vps as int) <= len,
                decreases n - t,
            {
                let off = slice_offset(len, n, g, t);
                if off > (len - vps) as u128 {
                    assert(shard_offset(self.slot_len(e as int), n as int, g as int, t as int) + per_shard(
                        self.slot_len(e as int),
                        g as int,
                    ) > self.slot_len(e as int));
                    return Some(ScheduleError::ShardSliceOutOfRange);
                }
                t = t + 1;
            }
            e = e + 1;
        }
        let co = &self.chunk_only_producers;
        if co.len() > 0 {
            if co.len() != bps.len() {
                return Some(ScheduleError::ChunkOnlyShape);
            }
            let mut e: usize = 0;
            while e < co.len()
                invariant
                    0 <= e <= co@.len(),
                    co == &self.chunk_only_producers,
                    bps == &self.block_producers,
                    co@.len() == bps@.len(),
                    bps@.len() > 0,
                    g == self.validator_groups,
                    n == self.num_shards,
                    g > 0,
                    n > 0,
                    forall|i: int| 0 <= i < bps@.len() ==> per_shard(#[trigger] self.slot_len(i), g as int) != 0,
                    forall|i: int, t: int|
                        0 <= i < bps@.len() && 0 <= t < n ==> #[trigger] shard_offset(self.slot_len(i), n as int, g as int, t)
                            + per_shard(self.slot_len(i), g as int) <= self.slot_len(i),
                    forall|i: int| 0 <= i < e ==> (#[trigger] co@[i])@.len() == n,
                decreases co@.len() - e,
            {
                if co[e].len() as u64 != n {
                    assert(co@[e as int]@.len() != n);
                    return Some(ScheduleError::ChunkOnlyShape);
                }
                e = e + 1;
            }
        }
        if self.has_chunk_only_conflict() {
            return Some(ScheduleError::ChunkOnlyProducerAlreadyValidator);
        }
        None
    }
}

} // verus!
