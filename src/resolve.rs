use vstd::prelude::*;
use crate::model::{LocSpec, MbrBuilderError, MbrPartSpec, MbrPhysPart, NumSpec, PartRef, PartSpec};

verus! {

/// What an error of the number settlement says: a spec with an unsettled
/// relative reference, or a number beyond the primary slots that every
/// valid layout would need, so that no layout exists on any device.
pub open spec fn number_error(e: MbrBuilderError, specs: Seq<MbrPartSpec>) -> bool {
    match e {
        MbrBuilderError::UnresolvedReference(i) => i < specs.len() && has_relative_ref(specs[i as int]),
        MbrBuilderError::NotPrimary(i) => i < specs.len() && forall|d: u64| #[trigger] no_layout(specs, d),
        _ => false,
    }
}

/// What an error of resolution on a device of `device_size` bytes says: a
/// spec with an unsettled relative reference, or a named position at which
/// every candidate fails, so that no valid layout exists.
pub open spec fn layout_error(e: MbrBuilderError, specs: Seq<MbrPartSpec>, device_size: u64) -> bool {
    let n = specs.len();
    match e {
        MbrBuilderError::UnresolvedReference(i) => i < n && has_relative_ref(specs[i as int]),
        MbrBuilderError::ConstraintConflict(i) => i < n && no_layout(specs, device_size),
        MbrBuilderError::OutOfBounds(i) => i < n && no_layout(specs, device_size),
        MbrBuilderError::NotPrimary(i) => i < n && no_layout(specs, device_size),
        MbrBuilderError::DuplicateNumber(i, j) => i < n && j < n && i != j && no_layout(specs, device_size),
        MbrBuilderError::Overlap(i, j) => i < n && j < n && i != j && no_layout(specs, device_size),
        _ => false,
    }
}

/// A layout that meets the specs and is valid on the device.
pub open spec fn valid_for(specs: Seq<MbrPartSpec>, parts: Seq<MbrPhysPart>, device_size: u64) -> bool {
    meets_specs(specs, parts, device_size) && layout_valid(parts, device_size)
}

/// No layout meets the specs and is valid on a device of this size.
pub open spec fn no_layout(specs: Seq<MbrPartSpec>, device_size: u64) -> bool {
    forall|parts: Seq<MbrPhysPart>| !#[trigger] valid_for(specs, parts, device_size)
}

/// A constraint of the spec refers to another partition: a relative
/// number, or an edge at another partition's edge.
pub open spec fn has_relative_ref(s: MbrPartSpec) -> bool {
    exists|k: int|
        0 <= k < s.specs@.len() && match #[trigger] s.specs@[k] {
            PartSpec::Number(n) => !(n is Exact),
            PartSpec::Start(l) => !(l is AtByte),
            PartSpec::End(l) => !(l is AtByte),
            PartSpec::IsBootable => false,
        }
}

pub open spec fn has_number(s: MbrPartSpec) -> bool {
    exists|k: int| 0 <= k < s.specs@.len() && (#[trigger] s.specs@[k]) is Number
}

/// No two partitions are both bootable.
pub open spec fn at_most_one_bootable(parts: Seq<MbrPhysPart>) -> bool {
    forall|a: int, b: int|
        0 <= a < parts.len() && 0 <= b < parts.len() && a != b && (#[trigger] parts[a]).bootable
            ==> !(#[trigger] parts[b]).bootable
}

/// Size of a sector, and of the MBR itself at the start of the device.
pub const SECTOR_SIZE: u64 = 512;

/// Largest sector index that the 32-bit LBA fields can hold.
pub const MAX_LBA: u64 = 0xffff_ffff;

/// Reference `r`, made from the spec at position `i`, designates partition `j`.
/// `Previous` and `Next` count positions; `Exact` names a partition number.
pub open spec fn refers(i: int, r: PartRef, parts: Seq<MbrPhysPart>, j: int) -> bool {
    0 <= j < parts.len() && match r {
        PartRef::Previous(k) => j == i - k,
        PartRef::Next(k) => j == i + 1 + k,
        PartRef::Exact(n) => parts[j].number == n,
    }
}

/// The edge value `v` of partition `i` sits where `l` says.
pub open spec fn loc_holds(i: int, l: LocSpec, parts: Seq<MbrPhysPart>, v: u64) -> bool {
    match l {
        LocSpec::AtEndOf(r) => exists|j: int| #[trigger] refers(i, r, parts, j) && parts[j].end == v,
        LocSpec::AtStartOf(r) => exists|j: int| #[trigger] refers(i, r, parts, j) && parts[j].start == v,
        LocSpec::AtByte(x) => v == x,
    }
}

/// The number of partition `i` is what `n` says.
pub open spec fn num_holds(i: int, n: NumSpec, parts: Seq<MbrPhysPart>) -> bool {
    match n {
        NumSpec::Exact(k) => parts[i].number == k,
        NumSpec::AfterPart(r) => exists|j: int|
            #[trigger] refers(i, r, parts, j) && parts[i].number == parts[j].number + 1,
        NumSpec::BeforePart(r) => exists|j: int|
            #[trigger] refers(i, r, parts, j) && parts[i].number + 1 == parts[j].number,
    }
}

/// Partition `i` meets constraint `c`.
pub open spec fn constraint_holds(i: int, c: PartSpec, parts: Seq<MbrPhysPart>) -> bool {
    match c {
        PartSpec::Number(n) => num_holds(i, n, parts),
        PartSpec::Start(l) => loc_holds(i, l, parts, parts[i].start),
        PartSpec::End(l) => loc_holds(i, l, parts, parts[i].end),
        PartSpec::IsBootable => parts[i].bootable,
    }
}

pub open spec fn has_start(s: MbrPartSpec) -> bool {
    exists|k: int| 0 <= k < s.specs@.len() && (#[trigger] s.specs@[k]) is Start
}

pub open spec fn has_end(s: MbrPartSpec) -> bool {
    exists|k: int| 0 <= k < s.specs@.len() && (#[trigger] s.specs@[k]) is End
}

/// Partition `i` meets every constraint of spec `i`, is bootable exactly when
/// the spec says so, has its own position as number when the spec gives no
/// number, starts right after the MBR sector when the spec gives no
/// start, and runs to the end of the device when it gives no end.
pub open spec fn meets_spec(specs: Seq<MbrPartSpec>, parts: Seq<MbrPhysPart>, device_size: u64, i: int) -> bool {
    &&& forall|k: int|
        0 <= k < specs[i].specs@.len() ==> constraint_holds(i, #[trigger] specs[i].specs@[k], parts)
    &&& parts[i].bootable == specs[i].spec_bootable()
    &&& !has_number(specs[i]) ==> parts[i].number == i
    &&& !has_start(specs[i]) ==> parts[i].start == SECTOR_SIZE
    &&& !has_end(specs[i]) ==> parts[i].end == device_size
}

/// One partition per spec, in the same order, each meeting its spec.
pub open spec fn meets_specs(specs: Seq<MbrPartSpec>, parts: Seq<MbrPhysPart>, device_size: u64) -> bool {
    &&& specs.len() == parts.len()
    &&& forall|i: int| 0 <= i < parts.len() ==> #[trigger] meets_spec(specs, parts, device_size, i)
}

/// A nonempty, sector-aligned range inside the device, addressable by the LBA
/// fields, in a primary slot.
pub open spec fn part_fits(p: MbrPhysPart, device_size: u64) -> bool {
    &&& p.start < p.end
    &&& p.end <= device_size
    &&& p.start % SECTOR_SIZE == 0
    &&& p.end % SECTOR_SIZE == 0
    &&& p.end / SECTOR_SIZE <= MAX_LBA
    &&& p.number < 4
}

pub open spec fn disjoint(p: MbrPhysPart, q: MbrPhysPart) -> bool {
    p.end <= q.start || q.end <= p.start
}

pub open spec fn distinct_numbers(parts: Seq<MbrPhysPart>) -> bool {
    forall|a: int, b: int|
        0 <= a < parts.len() && 0 <= b < parts.len() && a != b ==> #[trigger] parts[a].number
            != #[trigger] parts[b].number
}

pub open spec fn pair_ok(p: MbrPhysPart, q: MbrPhysPart) -> bool {
    disjoint(p, q) && p.number != q.number
}

/// Every partition fits the device; no two overlap or share a number.
pub open spec fn layout_valid(parts: Seq<MbrPhysPart>, device_size: u64) -> bool {
    &&& forall|i: int| 0 <= i < parts.len() ==> part_fits(#[trigger] parts[i], device_size)
    &&& forall|a: int, b: int|
        0 <= a < parts.len() && 0 <= b < parts.len() && a != b ==> pair_ok(
            #[trigger] parts[a],
            #[trigger] parts[b],
        )
}

/// The first `Number` constraint of a spec.
fn first_number(s: &MbrPartSpec) -> (r: Option<NumSpec>)
    ensures
        r is None <==> !has_number(*s),
        r matches Some(n) ==> s.specs@.contains(PartSpec::Number(n)),
{
    let mut k: usize = 0;
    while k < s.specs.len()
        invariant
            k <= s.specs@.len(),
            forall|q: int| 0 <= q < k ==> !((#[trigger] s.specs@[q]) is Number),
        decreases s.specs@.len() - k,
    {
        if let PartSpec::Number(n) = s.specs[k] {
            assert(s.specs@[k as int] == PartSpec::Number(n));
            return Some(n);
        }
        k += 1;
    }
    None
}

/// The first `Start` constraint of a spec.
fn first_start(s: &MbrPartSpec) -> (r: Option<LocSpec>)
    ensures
        r is None <==> !has_start(*s),
        r matches Some(l) ==> s.specs@.contains(PartSpec::Start(l)),
{
    let mut k: usize = 0;
    while k < s.specs.len()
        invariant
            k <= s.specs@.len(),
            forall|q: int| 0 <= q < k ==> !((#[trigger] s.specs@[q]) is Start),
        decreases s.specs@.len() - k,
    {
        if let PartSpec::Start(l) = s.specs[k] {
            assert(s.specs@[k as int] == PartSpec::Start(l));
            return Some(l);
        }
        k += 1;
    }
    None
}

/// The first `End` constraint of a spec.
fn first_end(s: &MbrPartSpec) -> (r: Option<LocSpec>)
    ensures
        r is None <==> !has_end(*s),
        r matches Some(l) ==> s.specs@.contains(PartSpec::End(l)),
{
    let mut k: usize = 0;
    while k < s.specs.len()
        invariant
            k <= s.specs@.len(),
            forall|q: int| 0 <= q < k ==> !((#[trigger] s.specs@[q]) is End),
        decreases s.specs@.len() - k,
    {
        if let PartSpec::End(l) = s.specs[k] {
            assert(s.specs@[k as int] == PartSpec::End(l));
            return Some(l);
        }
        k += 1;
    }
    None
}

/// `r`, made from position `i`, designates position `j`, given the numbers
/// assigned so far.
pub open spec fn targets(i: int, r: PartRef, nums: Seq<Option<u32>>, j: int) -> bool {
    0 <= j < nums.len() && match r {
        PartRef::Previous(k) => j == i - k,
        PartRef::Next(k) => j == i + 1 + k,
        PartRef::Exact(n) => nums[j] == Some(n),
    }
}

/// Every number assigned so far is the number of that partition in `parts`.
pub open spec fn nums_agree_with(parts: Seq<MbrPhysPart>, nums: Seq<Option<u32>>) -> bool {
    &&& parts.len() == nums.len()
    &&& forall|j: int| 0 <= j < nums.len() && (#[trigger] nums[j]) is Some ==> parts[j].number == nums[j]->0
}

/// The numbers assigned so far are forced: every valid layout, on any
/// device, has them.
pub open spec fn nums_forced(specs: Seq<MbrPartSpec>, nums: Seq<Option<u32>>) -> bool {
    forall|parts: Seq<MbrPhysPart>, d: u64| #[trigger] valid_for(specs, parts, d) ==> nums_agree_with(parts, nums)
}

/// Every edge assigned so far is that edge of the partition in `parts`.
pub open spec fn edges_agree_with(parts: Seq<MbrPhysPart>, starts: Seq<Option<u64>>, ends: Seq<Option<u64>>) -> bool {
    &&& parts.len() == starts.len()
    &&& parts.len() == ends.len()
    &&& forall|j: int| 0 <= j < starts.len() && (#[trigger] starts[j]) is Some ==> parts[j].start == starts[j]->0
    &&& forall|j: int| 0 <= j < ends.len() && (#[trigger] ends[j]) is Some ==> parts[j].end == ends[j]->0
}

/// The edges assigned so far are forced on a device of `device_size` bytes.
pub open spec fn edges_forced(
    specs: Seq<MbrPartSpec>,
    device_size: u64,
    starts: Seq<Option<u64>>,
    ends: Seq<Option<u64>>,
) -> bool {
    forall|parts: Seq<MbrPhysPart>| #[trigger] valid_for(specs, parts, device_size) ==> edges_agree_with(parts, starts, ends)
}

/// Every position left without a value has a relative reference.
pub open spec fn unset_is_relative<T>(specs: Seq<MbrPartSpec>, vals: Seq<Option<T>>) -> bool {
    forall|j: int| 0 <= j < vals.len() && (#[trigger] vals[j]) is None ==> has_relative_ref(specs[j])
}

proof fn lemma_constraint_of_valid(specs: Seq<MbrPartSpec>, parts: Seq<MbrPhysPart>, d: u64, i: int, c: PartSpec)
    requires
        valid_for(specs, parts, d),
        0 <= i < specs.len(),
        specs[i].specs@.contains(c),
    ensures
        constraint_holds(i, c, parts),
        distinct_numbers(parts),
        parts.len() == specs.len(),
{
    assert(meets_spec(specs, parts, d, i));
    let k = choose|k: int| 0 <= k < specs[i].specs@.len() && specs[i].specs@[k] == c;
    assert(constraint_holds(i, specs[i].specs@[k], parts));
    lemma_valid_distinct(parts, d);
}

pub(crate) proof fn lemma_valid_distinct(parts: Seq<MbrPhysPart>, d: u64)
    requires
        layout_valid(parts, d),
    ensures
        distinct_numbers(parts),
{
    assert forall|a: int, b: int| 0 <= a < parts.len() && 0 <= b < parts.len() && a != b implies #[trigger] parts[a].number
        != #[trigger] parts[b].number by {
        assert(pair_ok(parts[a], parts[b]));
    }
}

proof fn lemma_targets_refers(i: int, r: PartRef, parts: Seq<MbrPhysPart>, nums: Seq<Option<u32>>, j: int)
    requires
        nums_agree_with(parts, nums),
        targets(i, r, nums, j),
    ensures
        refers(i, r, parts, j),
{
    if let PartRef::Exact(n) = r {
        assert(nums[j] is Some);
    }
}

/// Position of the spec that `r` designates from position `i`, given the
/// numbers assigned so far.
fn target_in(i: usize, r: PartRef, nums: &Vec<Option<u32>>) -> (t: Option<usize>)
    requires
        i < nums.len(),
    ensures
        t matches Some(j) ==> targets(i as int, r, nums@, j as int),
{
    match r {
        PartRef::Previous(k) => {
            if (k as usize) <= i {
                Some(i - k as usize)
            } else {
                None
            }
        },
        PartRef::Next(k) => {
            if (k as usize) < nums.len() - i - 1 {
                Some(i + 1 + k as usize)
            } else {
                None
            }
        },
        PartRef::Exact(n) => {
            let mut j: usize = 0;
            while j < nums.len()
                invariant
                    j <= nums.len(),
                    r == PartRef::Exact(n),
                decreases nums.len() - j,
            {
                if let Some(m) = nums[j] {
                    if m == n {
                        return Some(j);
                    }
                }
                j += 1;
            }
            None
        },
    }
}

/// The number that spec `i` must have, derived from its first `Number`
/// constraint and the numbers known so far.
fn derive_number(specs: &Vec<MbrPartSpec>, nums: &Vec<Option<u32>>, i: usize) -> (r: Option<u32>)
    requires
        i < nums.len(),
        nums.len() == specs.len(),
        nums_forced(specs@, nums@),
    ensures
        r matches Some(v) ==> forall|parts: Seq<MbrPhysPart>, d: u64|
            #[trigger] valid_for(specs@, parts, d) ==> parts[i as int].number == v,
{
    match first_number(&specs[i]) {
        Some(NumSpec::AfterPart(r)) => match target_in(i, r, nums) {
            Some(j) => match nums[j] {
                Some(v) => if v < u32::MAX {
                    proof {
                        assert forall|parts: Seq<MbrPhysPart>, d: u64| #[trigger] valid_for(specs@, parts, d) implies parts[i as int].number == v + 1 by {
                            lemma_constraint_of_valid(specs@, parts, d, i as int, PartSpec::Number(NumSpec::AfterPart(r)));
                            lemma_targets_refers(i as int, r, parts, nums@, j as int);
                            let q = choose|q: int| #[trigger] refers(i as int, r, parts, q) && parts[i as int].number == parts[q].number + 1;
                            lemma_refers_unique(i as int, r, parts, q, j as int);
                        }
                    }
                    Some(v + 1)
                } else {
                    None
                },
                None => None,
            },
            None => None,
        },
        Some(NumSpec::BeforePart(r)) => match target_in(i, r, nums) {
            Some(j) => match nums[j] {
                Some(v) => if v > 0 {
                    proof {
                        assert forall|parts: Seq<MbrPhysPart>, d: u64| #[trigger] valid_for(specs@, parts, d) implies parts[i as int].number == v - 1 by {
                            lemma_constraint_of_valid(specs@, parts, d, i as int, PartSpec::Number(NumSpec::BeforePart(r)));
                            lemma_targets_refers(i as int, r, parts, nums@, j as int);
                            let q = choose|q: int| #[trigger] refers(i as int, r, parts, q) && parts[i as int].number + 1 == parts[q].number;
                            lemma_refers_unique(i as int, r, parts, q, j as int);
                        }
                    }
                    Some(v - 1)
                } else {
                    None
                },
                None => None,
            },
            None => None,
        },
        _ => None,
    }
}

/// Iterates the relative `Number` constraints to a fixed point: each pass
/// assigns the number of every spec whose reference is already numbered.
/// Stops after a pass without progress, or after as many passes as specs.
fn settle_numbers(specs: &Vec<MbrPartSpec>, nums: Vec<Option<u32>>) -> (r: Vec<Option<u32>>)
    requires
        nums.len() == specs.len(),
        nums_forced(specs@, nums@),
        unset_is_relative(specs@, nums@),
    ensures
        r.len() == specs.len(),
        nums_forced(specs@, r@),
        unset_is_relative(specs@, r@),
{
    let mut nums = nums;
    let n = specs.len();
    let mut pass: usize = 0;
    while pass < n
        invariant
            nums.len() == n,
            n == specs.len(),
            nums_forced(specs@, nums@),
            unset_is_relative(specs@, nums@),
        decreases n - pass,
    {
        let mut progress = false;
        let mut i: usize = 0;
        while i < n
            invariant
                nums.len() == n,
                n == specs.len(),
                i <= n,
                nums_forced(specs@, nums@),
                unset_is_relative(specs@, nums@),
            decreases n - i,
        {
            if nums[i].is_none() {
                let found = derive_number(specs, &nums, i);
                if let Some(v) = found {
                    let ghost before = nums@;
                    nums.set(i, Some(v));
                    proof {
                        assert forall|parts: Seq<MbrPhysPart>, d: u64| #[trigger] valid_for(specs@, parts, d) implies nums_agree_with(parts, nums@) by {
                            assert(nums_agree_with(parts, before));
                        }
                        assert(unset_is_relative(specs@, nums@)) by {
                            assert forall|j: int| 0 <= j < nums@.len() && (#[trigger] nums@[j]) is None implies has_relative_ref(specs@[j]) by {
                                assert(before[j] is None);
                            }
                        }
                    }
                    progress = true;
                }
            }
            i += 1;
        }
        if !progress {
            break;
        }
        pass += 1;
    }
    nums
}

/// Settles the number of every spec. A spec without a `Number` constraint
/// takes its own position as number.
pub fn settle_all_numbers(specs: &Vec<MbrPartSpec>) -> (r: Result<Vec<Option<u32>>, MbrBuilderError>)
    ensures
        r matches Ok(nums) ==> nums.len() == specs.len() && nums_forced(specs@, nums@) && forall|j: int|
            0 <= j < nums.len() ==> (#[trigger] nums@[j]) is Some && nums@[j]->0 < 4,
        r matches Err(e) ==> number_error(e, specs@),
{
    let n = specs.len();
    let mut nums: Vec<Option<u32>> = Vec::new();
    let mut i: usize = 0;
    while i < n
        invariant
            n == specs.len(),
            i <= n,
            nums.len() == i,
            forall|j: int| 0 <= j < i ==> #[trigger] nums@[j] is None ==> has_relative_ref(specs@[j]),
            forall|parts: Seq<MbrPhysPart>, d: u64| #[trigger] valid_for(specs@, parts, d) ==>
                forall|j: int| 0 <= j < i && (#[trigger] nums@[j]) is Some ==> parts[j].number == nums@[j]->0,
        decreases n - i,
    {
        let ghost before = nums@;
        match first_number(&specs[i]) {
            None => {
                if i >= 4 {
                    proof {
                        assert forall|d: u64| #[trigger] no_layout(specs@, d) by {
                            assert forall|parts: Seq<MbrPhysPart>| !#[trigger] valid_for(specs@, parts, d) by {
                                if valid_for(specs@, parts, d) {
                                    assert(meets_spec(specs@, parts, d, i as int));
                                    assert(part_fits(parts[i as int], d));
                                }
                            }
                        }
                    }
                    return Err(MbrBuilderError::NotPrimary(i));
                }
                nums.push(Some(i as u32));
                proof {
                    assert forall|parts: Seq<MbrPhysPart>, d: u64| #[trigger] valid_for(specs@, parts, d) implies parts[i as int].number == i by {
                        assert(meets_spec(specs@, parts, d, i as int));
                    }
                }
            },
            Some(NumSpec::Exact(k)) => {
                nums.push(Some(k));
                proof {
                    assert forall|parts: Seq<MbrPhysPart>, d: u64| #[trigger] valid_for(specs@, parts, d) implies parts[i as int].number == k by {
                        lemma_constraint_of_valid(specs@, parts, d, i as int, PartSpec::Number(NumSpec::Exact(k)));
                    }
                }
            },
            Some(x) => {
                nums.push(None);
                proof {
                    let k = choose|k: int| 0 <= k < specs@[i as int].specs@.len() && specs@[i as int].specs@[k] == PartSpec::Number(x);
                    assert(has_relative_ref(specs@[i as int])) by {
                        assert(specs@[i as int].specs@[k] == PartSpec::Number(x));
                    }
                }
            },
        }
        proof {
            assert forall|j: int| 0 <= j < i ==> nums@[j] == before[j] by {}
        }
        i += 1;
    }
    proof {
        assert forall|parts: Seq<MbrPhysPart>, d: u64| #[trigger] valid_for(specs@, parts, d) implies nums_agree_with(parts, nums@) by {
            assert(meets_specs(specs@, parts, d));
        }
    }
    let nums = settle_numbers(specs, nums);
    let mut i: usize = 0;
    while i < n
        invariant
            n == specs.len(),
            nums.len() == n,
            i <= n,
            nums_forced(specs@, nums@),
            unset_is_relative(specs@, nums@),
            forall|j: int| 0 <= j < i ==> (#[trigger] nums@[j]) is Some && nums@[j]->0 < 4,
        decreases n - i,
    {
        match nums[i] {
            None => {
                return Err(MbrBuilderError::UnresolvedReference(i));
            },
            Some(v) => {
                if v >= 4 {
                    proof {
                        assert forall|d: u64| #[trigger] no_layout(specs@, d) by {
                            assert forall|parts: Seq<MbrPhysPart>| !#[trigger] valid_for(specs@, parts, d) by {
                                if valid_for(specs@, parts, d) {
                                    assert(nums_agree_with(parts, nums@));
                                    assert(part_fits(parts[i as int], d));
                                }
                            }
                        }
                    }
                    return Err(MbrBuilderError::NotPrimary(i));
                }
            },
        }
        i += 1;
    }
    Ok(nums)
}

/// Position of the partition that `r` designates from position `i`.
fn target_of(i: usize, r: PartRef, parts: &Vec<MbrPhysPart>) -> (t: Option<usize>)
    requires
        i < parts.len(),
    ensures
        match t {
            Some(j) => refers(i as int, r, parts@, j as int),
            None => forall|j: int| !#[trigger] refers(i as int, r, parts@, j),
        },
{
    match r {
        PartRef::Previous(k) => {
            if (k as usize) <= i {
                Some(i - k as usize)
            } else {
                None
            }
        },
        PartRef::Next(k) => {
            if (k as usize) < parts.len() - i - 1 {
                Some(i + 1 + k as usize)
            } else {
                None
            }
        },
        PartRef::Exact(n) => {
            let mut j: usize = 0;
            while j < parts.len()
                invariant
                    j <= parts.len(),
                    i < parts.len(),
                    r == PartRef::Exact(n),
                    forall|q: int| 0 <= q < j ==> (#[trigger] parts@[q]).number != n,
                decreases parts.len() - j,
            {
                if parts[j].number == n {
                    return Some(j);
                }
                j += 1;
            }
            None
        },
    }
}

/// With distinct numbers a reference designates at most one partition.
proof fn lemma_refers_unique(i: int, r: PartRef, parts: Seq<MbrPhysPart>, j1: int, j2: int)
    requires
        distinct_numbers(parts),
        refers(i, r, parts, j1),
        refers(i, r, parts, j2),
    ensures
        j1 == j2,
{
    if j1 != j2 {
        assert(parts[j1].number != parts[j2].number);
    }
}

fn check_loc(i: usize, l: LocSpec, parts: &Vec<MbrPhysPart>, v: u64) -> (b: bool)
    requires
        i < parts.len(),
        distinct_numbers(parts@),
    ensures
        b == loc_holds(i as int, l, parts@, v),
{
    match l {
        LocSpec::AtEndOf(r) => match target_of(i, r, parts) {
            Some(j) => {
                proof {
                    assert forall|q: int| #[trigger] refers(i as int, r, parts@, q) implies q == j by {
                        lemma_refers_unique(i as int, r, parts@, q, j as int);
                    }
                }
                parts[j].end == v
            },
            None => false,
        },
        LocSpec::AtStartOf(r) => match target_of(i, r, parts) {
            Some(j) => {
                proof {
                    assert forall|q: int| #[trigger] refers(i as int, r, parts@, q) implies q == j by {
                        lemma_refers_unique(i as int, r, parts@, q, j as int);
                    }
                }
                parts[j].start == v
            },
            None => false,
        },
        LocSpec::AtByte(x) => v == x,
    }
}

fn check_num(i: usize, n: NumSpec, parts: &Vec<MbrPhysPart>) -> (b: bool)
    requires
        i < parts.len(),
        distinct_numbers(parts@),
    ensures
        b == num_holds(i as int, n, parts@),
{
    match n {
        NumSpec::Exact(k) => parts[i].number == k,
        NumSpec::AfterPart(r) => match target_of(i, r, parts) {
            Some(j) => {
                proof {
                    assert forall|q: int| #[trigger] refers(i as int, r, parts@, q) implies q == j by {
                        lemma_refers_unique(i as int, r, parts@, q, j as int);
                    }
                }
                parts[i].number as u64 == parts[j].number as u64 + 1
            },
            None => false,
        },
        NumSpec::BeforePart(r) => match target_of(i, r, parts) {
            Some(j) => {
                proof {
                    assert forall|q: int| #[trigger] refers(i as int, r, parts@, q) implies q == j by {
                        lemma_refers_unique(i as int, r, parts@, q, j as int);
                    }
                }
                parts[i].number as u64 + 1 == parts[j].number as u64
            },
            None => false,
        },
    }
}

fn check_constraint(i: usize, c: PartSpec, parts: &Vec<MbrPhysPart>) -> (b: bool)
    requires
        i < parts.len(),
        distinct_numbers(parts@),
    ensures
        b == constraint_holds(i as int, c, parts@),
{
    match c {
        PartSpec::Number(n) => check_num(i, n, parts),
        PartSpec::Start(l) => check_loc(i, l, parts, parts[i].start),
        PartSpec::End(l) => check_loc(i, l, parts, parts[i].end),
        PartSpec::IsBootable => parts[i].bootable,
    }
}

fn check_spec(specs: &Vec<MbrPartSpec>, parts: &Vec<MbrPhysPart>, device_size: u64, i: usize) -> (b: bool)
    requires
        i < parts.len(),
        specs.len() == parts.len(),
        distinct_numbers(parts@),
    ensures
        b == meets_spec(specs@, parts@, device_size, i as int),
{
    let s = &specs[i];
    let mut k: usize = 0;
    while k < s.specs.len()
        invariant
            k <= s.specs@.len(),
            *s == specs@[i as int],
            i < parts.len(),
            distinct_numbers(parts@),
            forall|q: int| 0 <= q < k ==> constraint_holds(i as int, #[trigger] s.specs@[q], parts@),
        decreases s.specs@.len() - k,
    {
        if !check_constraint(i, s.specs[k], parts) {
            return false;
        }
        k += 1;
    }
    if s.is_bootable() != parts[i].bootable {
        return false;
    }
    if first_number(s).is_none() && parts[i].number as usize != i {
        return false;
    }
    if first_start(s).is_none() && parts[i].start != SECTOR_SIZE {
        return false;
    }
    if first_end(s).is_none() && parts[i].end != device_size {
        return false;
    }
    true
}

fn check_fits(p: &MbrPhysPart, device_size: u64) -> (b: bool)
    ensures
        b == part_fits(*p, device_size),
{
    p.start < p.end && p.end <= device_size && p.start % SECTOR_SIZE == 0 && p.end % SECTOR_SIZE == 0
        && p.end / SECTOR_SIZE <= MAX_LBA && p.number < 4
}

/// A pair of partitions that share a number (`true`) or overlap (`false`).
fn find_clash(parts: &Vec<MbrPhysPart>) -> (r: Option<(usize, usize, bool)>)
    ensures
        match r {
            None => forall|a: int, b: int|
                0 <= a < parts.len() && 0 <= b < parts.len() && a != b ==> pair_ok(
                    #[trigger] parts@[a],
                    #[trigger] parts@[b],
                ),
            Some((a, b, dup)) => a < parts.len() && b < parts.len() && a != b && (dup
                ==> parts@[a as int].number == parts@[b as int].number) && (!dup ==> !disjoint(
                parts@[a as int],
                parts@[b as int],
            )),
        },
{
    let n = parts.len();
    let mut a: usize = 0;
    while a < n
        invariant
            n == parts.len(),
            a <= n,
            forall|x: int, y: int|
                0 <= x < a && 0 <= y < n && x != y ==> pair_ok(#[trigger] parts@[x], #[trigger] parts@[y]),
        decreases n - a,
    {
        let mut b: usize = 0;
        while b < n
            invariant
                n == parts.len(),
                a < n,
                b <= n,
                forall|x: int, y: int|
                    0 <= x < a && 0 <= y < n && x != y ==> pair_ok(#[trigger] parts@[x], #[trigger] parts@[y]),
                forall|y: int| 0 <= y < b && a != y ==> pair_ok(parts@[a as int], #[trigger] parts@[y]),
            decreases n - b,
        {
            if a != b {
                let p = parts[a];
                let q = parts[b];
                if p.number == q.number {
                    return Some((a, b, true));
                }
                if !(p.end <= q.start || q.end <= p.start) {
                    return Some((a, b, false));
                }
            }
            b += 1;
        }
        a += 1;
    }
    None
}


/// A valid layout has pairwise disjoint partitions, each inside the device.
pub proof fn resolved_partitions_disjoint(parts: Seq<MbrPhysPart>, device_size: u64)
    requires
        layout_valid(parts, device_size),
    ensures
        forall|a: int, b: int|
            0 <= a < parts.len() && 0 <= b < parts.len() && a != b ==> #[trigger] parts[a].end <= #[trigger] parts[b].start
                || parts[b].end <= parts[a].start,
        forall|i: int| 0 <= i < parts.len() ==> (#[trigger] parts[i]).start < parts[i].end <= device_size,
{
    assert forall|a: int, b: int|
        0 <= a < parts.len() && 0 <= b < parts.len() && a != b implies #[trigger] parts[a].end <= #[trigger] parts[b].start
            || parts[b].end <= parts[a].start by {
        assert(pair_ok(parts[a], parts[b]));
    }
    assert forall|i: int| 0 <= i < parts.len() implies (#[trigger] parts[i]).start < parts[i].end <= device_size by {
        assert(part_fits(parts[i], device_size));
    }
}

/// A partition whose spec says it starts at the end of the previous one
/// starts exactly where that partition ends.
pub proof fn start_at_end_of_previous(specs: Seq<MbrPartSpec>, parts: Seq<MbrPhysPart>, device_size: u64, i: int)
    requires
        meets_specs(specs, parts, device_size),
        0 <= i < specs.len(),
        specs[i].specs@.contains(PartSpec::Start(LocSpec::AtEndOf(PartRef::Previous(1)))),
    ensures
        i >= 1,
        parts[i].start == parts[i - 1].end,
{
    assert(meets_spec(specs, parts, device_size, i));
    let k = choose|k: int|
        0 <= k < specs[i].specs@.len() && specs[i].specs@[k] == PartSpec::Start(LocSpec::AtEndOf(PartRef::Previous(1)));
    assert(constraint_holds(i, specs[i].specs@[k], parts));
    let j = choose|j: int| #[trigger] refers(i, PartRef::Previous(1), parts, j) && parts[j].end == parts[i].start;
    assert(j == i - 1);
}

/// The value that an edge located by `l` from position `i` must have, from
/// the numbers and the edges known so far.
fn derive_edge(
    specs: &Vec<MbrPartSpec>,
    device_size: u64,
    i: usize,
    l: LocSpec,
    nums: &Vec<Option<u32>>,
    starts: &Vec<Option<u64>>,
    ends: &Vec<Option<u64>>,
) -> (r: Option<u64>)
    requires
        i < nums.len(),
        nums.len() == specs.len(),
        starts.len() == nums.len(),
        ends.len() == nums.len(),
        nums_forced(specs@, nums@),
        edges_forced(specs@, device_size, starts@, ends@),
    ensures
        r matches Some(v) ==> forall|parts: Seq<MbrPhysPart>, x: u64|
            valid_for(specs@, parts, device_size) && #[trigger] loc_holds(i as int, l, parts, x) ==> x == v,
{
    match l {
        LocSpec::AtEndOf(r) => match target_in(i, r, nums) {
            Some(j) => {
                proof {
                    assert forall|parts: Seq<MbrPhysPart>, x: u64|
                        valid_for(specs@, parts, device_size) && #[trigger] loc_holds(i as int, l, parts, x)
                            && ends@[j as int] is Some implies x == ends@[j as int]->0 by {
                        assert(nums_agree_with(parts, nums@));
                        assert(edges_agree_with(parts, starts@, ends@));
                        lemma_valid_distinct(parts, device_size);
                        lemma_targets_refers(i as int, r, parts, nums@, j as int);
                        let q = choose|q: int| #[trigger] refers(i as int, r, parts, q) && parts[q].end == x;
                        lemma_refers_unique(i as int, r, parts, q, j as int);
                    }
                }
                ends[j]
            },
            None => None,
        },
        LocSpec::AtStartOf(r) => match target_in(i, r, nums) {
            Some(j) => {
                proof {
                    assert forall|parts: Seq<MbrPhysPart>, x: u64|
                        valid_for(specs@, parts, device_size) && #[trigger] loc_holds(i as int, l, parts, x)
                            && starts@[j as int] is Some implies x == starts@[j as int]->0 by {
                        assert(nums_agree_with(parts, nums@));
                        assert(edges_agree_with(parts, starts@, ends@));
                        lemma_valid_distinct(parts, device_size);
                        lemma_targets_refers(i as int, r, parts, nums@, j as int);
                        let q = choose|q: int| #[trigger] refers(i as int, r, parts, q) && parts[q].start == x;
                        lemma_refers_unique(i as int, r, parts, q, j as int);
                    }
                }
                starts[j]
            },
            None => None,
        },
        LocSpec::AtByte(x) => Some(x),
    }
}

/// One sweep over the specs in order, filling in every unknown edge whose
/// referenced edge is known. Also tells whether any edge was filled in.
fn sweep_edges(
    specs: &Vec<MbrPartSpec>,
    device_size: u64,
    nums: &Vec<Option<u32>>,
    starts: Vec<Option<u64>>,
    ends: Vec<Option<u64>>,
) -> (r: (Vec<Option<u64>>, Vec<Option<u64>>, bool))
    requires
        nums.len() == specs.len(),
        starts.len() == specs.len(),
        ends.len() == specs.len(),
        nums_forced(specs@, nums@),
        edges_forced(specs@, device_size, starts@, ends@),
        unset_is_relative(specs@, starts@),
        unset_is_relative(specs@, ends@),
    ensures
        r.0.len() == specs.len(),
        r.1.len() == specs.len(),
        edges_forced(specs@, device_size, r.0@, r.1@),
        unset_is_relative(specs@, r.0@),
        unset_is_relative(specs@, r.1@),
{
    let mut starts = starts;
    let mut ends = ends;
    let n = specs.len();
    let mut progress = false;
    let mut i: usize = 0;
    while i < n
        invariant
            nums.len() == n,
            starts.len() == n,
            ends.len() == n,
            n == specs.len(),
            i <= n,
            nums_forced(specs@, nums@),
            edges_forced(specs@, device_size, starts@, ends@),
            unset_is_relative(specs@, starts@),
            unset_is_relative(specs@, ends@),
        decreases n - i,
    {
        if starts[i].is_none() {
            if let Some(l) = first_start(&specs[i]) {
                let v = derive_edge(specs, device_size, i, l, nums, &starts, &ends);
                if let Some(x) = v {
                    let ghost before = starts@;
                    starts.set(i, Some(x));
                    proof {
                        assert forall|parts: Seq<MbrPhysPart>| #[trigger] valid_for(specs@, parts, device_size)
                            implies edges_agree_with(parts, starts@, ends@) by {
                            assert(edges_agree_with(parts, before, ends@));
                            lemma_constraint_of_valid(specs@, parts, device_size, i as int, PartSpec::Start(l));
                            assert(loc_holds(i as int, l, parts, parts[i as int].start));
                        }
                        assert forall|j: int| 0 <= j < starts@.len() && (#[trigger] starts@[j]) is None
                            implies has_relative_ref(specs@[j]) by {
                            assert(before[j] is None);
                        }
                    }
                    progress = true;
                }
            }
        }
        if ends[i].is_none() {
            if let Some(l) = first_end(&specs[i]) {
                let v = derive_edge(specs, device_size, i, l, nums, &starts, &ends);
                if let Some(x) = v {
                    let ghost before = ends@;
                    ends.set(i, Some(x));
                    proof {
                        assert forall|parts: Seq<MbrPhysPart>| #[trigger] valid_for(specs@, parts, device_size)
                            implies edges_agree_with(parts, starts@, ends@) by {
                            assert(edges_agree_with(parts, starts@, before));
                            lemma_constraint_of_valid(specs@, parts, device_size, i as int, PartSpec::End(l));
                            assert(loc_holds(i as int, l, parts, parts[i as int].end));
                        }
                        assert forall|j: int| 0 <= j < ends@.len() && (#[trigger] ends@[j]) is None
                            implies has_relative_ref(specs@[j]) by {
                            assert(before[j] is None);
                        }
                    }
                    progress = true;
                }
            }
        }
        i += 1;
    }
    (starts, ends, progress)
}

/// Iterates the `Start` and `End` constraints to a fixed point. There are
/// two edges per spec, so each of the at most `n` passes sweeps twice.
fn settle_edges(
    specs: &Vec<MbrPartSpec>,
    device_size: u64,
    nums: &Vec<Option<u32>>,
    starts: Vec<Option<u64>>,
    ends: Vec<Option<u64>>,
) -> (r: (Vec<Option<u64>>, Vec<Option<u64>>))
    requires
        nums.len() == specs.len(),
        starts.len() == specs.len(),
        ends.len() == specs.len(),
        nums_forced(specs@, nums@),
        edges_forced(specs@, device_size, starts@, ends@),
        unset_is_relative(specs@, starts@),
        unset_is_relative(specs@, ends@),
    ensures
        r.0.len() == specs.len(),
        r.1.len() == specs.len(),
        edges_forced(specs@, device_size, r.0@, r.1@),
        unset_is_relative(specs@, r.0@),
        unset_is_relative(specs@, r.1@),
{
    let mut starts = starts;
    let mut ends = ends;
    let n = specs.len();
    let mut pass: usize = 0;
    while pass < n
        invariant
            nums.len() == n,
            starts.len() == n,
            ends.len() == n,
            n == specs.len(),
            nums_forced(specs@, nums@),
            edges_forced(specs@, device_size, starts@, ends@),
            unset_is_relative(specs@, starts@),
            unset_is_relative(specs@, ends@),
        decreases n - pass,
    {
        let (s1, e1, p1) = sweep_edges(specs, device_size, nums, starts, ends);
        let (s2, e2, p2) = sweep_edges(specs, device_size, nums, s1, e1);
        starts = s2;
        ends = e2;
        if !p1 && !p2 {
            break;
        }
        pass += 1;
    }
    (starts, ends)
}

/// The edges known before any reference is followed: the defaults of specs
/// without a `Start` or `End`, and edges given as byte offsets.
fn initial_edges(specs: &Vec<MbrPartSpec>, device_size: u64) -> (r: (Vec<Option<u64>>, Vec<Option<u64>>))
    ensures
        r.0.len() == specs.len(),
        r.1.len() == specs.len(),
        edges_forced(specs@, device_size, r.0@, r.1@),
        unset_is_relative(specs@, r.0@),
        unset_is_relative(specs@, r.1@),
{
    let n = specs.len();
    let mut starts: Vec<Option<u64>> = Vec::new();
    let mut ends: Vec<Option<u64>> = Vec::new();
    let mut i: usize = 0;
    while i < n
        invariant
            n == specs.len(),
            i <= n,
            starts.len() == i,
            ends.len() == i,
            unset_is_relative(specs@, starts@),
            unset_is_relative(specs@, ends@),
            forall|parts: Seq<MbrPhysPart>| #[trigger] valid_for(specs@, parts, device_size) ==> {
                &&& forall|j: int| 0 <= j < i && (#[trigger] starts@[j]) is Some ==> parts[j].start == starts@[j]->0
                &&& forall|j: int| 0 <= j < i && (#[trigger] ends@[j]) is Some ==> parts[j].end == ends@[j]->0
            },
        decreases n - i,
    {
        let ghost (s0, e0) = (starts@, ends@);
        let fs = first_start(&specs[i]);
        let st: Option<u64> = match fs {
            None => Some(SECTOR_SIZE),
            Some(LocSpec::AtByte(x)) => Some(x),
            _ => None,
        };
        let fe = first_end(&specs[i]);
        let en: Option<u64> = match fe {
            None => Some(device_size),
            Some(LocSpec::AtByte(x)) => Some(x),
            _ => None,
        };
        starts.push(st);
        ends.push(en);
        proof {
            assert forall|parts: Seq<MbrPhysPart>| #[trigger] valid_for(specs@, parts, device_size) implies {
                &&& forall|j: int| 0 <= j <= i && (#[trigger] starts@[j]) is Some ==> parts[j].start == starts@[j]->0
                &&& forall|j: int| 0 <= j <= i && (#[trigger] ends@[j]) is Some ==> parts[j].end == ends@[j]->0
            } by {
                assert(meets_spec(specs@, parts, device_size, i as int));
                assert(starts@[i as int] == st && ends@[i as int] == en);
                if let Some(l) = fs {
                    lemma_constraint_of_valid(specs@, parts, device_size, i as int, PartSpec::Start(l));
                }
                if let Some(l) = fe {
                    lemma_constraint_of_valid(specs@, parts, device_size, i as int, PartSpec::End(l));
                }
                assert forall|j: int| 0 <= j < i implies starts@[j] == s0[j] && ends@[j] == e0[j] by {}
            }
            assert forall|j: int| 0 <= j < starts@.len() && (#[trigger] starts@[j]) is None implies has_relative_ref(specs@[j]) by {
                if j == i {
                    let l = fs->0;
                    let k = choose|k: int| 0 <= k < specs@[j].specs@.len() && specs@[j].specs@[k] == PartSpec::Start(l);
                    assert(specs@[j].specs@[k] == PartSpec::Start(l));
                } else {
                    assert(s0[j] is None);
                }
            }
            assert forall|j: int| 0 <= j < ends@.len() && (#[trigger] ends@[j]) is None implies has_relative_ref(specs@[j]) by {
                if j == i {
                    let l = fe->0;
                    let k = choose|k: int| 0 <= k < specs@[j].specs@.len() && specs@[j].specs@[k] == PartSpec::End(l);
                    assert(specs@[j].specs@[k] == PartSpec::End(l));
                } else {
                    assert(e0[j] is None);
                }
            }
        }
        i += 1;
    }
    proof {
        assert forall|parts: Seq<MbrPhysPart>| #[trigger] valid_for(specs@, parts, device_size) implies edges_agree_with(parts, starts@, ends@) by {
            assert(meets_specs(specs@, parts, device_size));
        }
    }
    (starts, ends)
}

/// Resolves the specs, in the order they were added, into one concrete
/// partition each. Numbers are settled first, then edges; a spec without a
/// `Number` constraint takes its own position as number, one without a
/// `Start` begins right after the MBR sector, one without an `End` runs to
/// the end of the device. Every value settled this way is forced: each valid
/// layout has it. So the candidate is the only possible layout, and when a
/// check of it fails no valid layout exists.
pub fn resolve_layout(specs: &Vec<MbrPartSpec>, device_size: u64) -> (r: Result<Vec<MbrPhysPart>, MbrBuilderError>)
    ensures
        r matches Ok(parts) ==> valid_for(specs@, parts@, device_size),
        r matches Err(e) ==> layout_error(e, specs@, device_size),
        specs@.len() == 0 ==> (r matches Ok(parts) && parts@.len() == 0),
{
    let n = specs.len();
    let nums = match settle_all_numbers(specs) {
        Ok(v) => v,
        Err(e) => {
            return Err(e);
        },
    };
    let (starts, ends) = initial_edges(specs, device_size);
    let (starts, ends) = settle_edges(specs, device_size, &nums, starts, ends);

    let mut parts: Vec<MbrPhysPart> = Vec::new();
    let mut i: usize = 0;
    while i < n
        invariant
            n == specs.len(),
            nums.len() == n,
            starts.len() == n,
            ends.len() == n,
            i <= n,
            parts.len() == i,
            forall|j: int| 0 <= j < n ==> (#[trigger] nums@[j]) is Some,
            unset_is_relative(specs@, starts@),
            unset_is_relative(specs@, ends@),
            forall|j: int| 0 <= j < i ==> #[trigger] parts@[j] == (MbrPhysPart {
                number: nums@[j]->0,
                start: starts@[j]->0,
                end: ends@[j]->0,
                bootable: specs@[j].spec_bootable(),
            }),
            forall|j: int| 0 <= j < i ==> (#[trigger] starts@[j]) is Some && ends@[j] is Some,
        decreases n - i,
    {
        match (nums[i], starts[i], ends[i]) {
            (Some(number), Some(start), Some(end)) => {
                let bootable = specs[i].is_bootable();
                parts.push(MbrPhysPart { number, start, end, bootable });
            },
            _ => {
                proof {
                    if starts@[i as int] is None {
                    } else {
                        assert(ends@[i as int] is None);
                    }
                }
                return Err(MbrBuilderError::UnresolvedReference(i));
            },
        }
        i += 1;
    }
    proof {
        assert forall|p: Seq<MbrPhysPart>| #[trigger] valid_for(specs@, p, device_size) implies p == parts@ by {
            assert(nums_agree_with(p, nums@));
            assert(edges_agree_with(p, starts@, ends@));
            assert forall|j: int| 0 <= j < n implies #[trigger] p[j] == parts@[j] by {
                assert(meets_spec(specs@, p, device_size, j));
                assert(starts@[j] is Some);
            }
            assert(p =~= parts@);
        }
    }

    let mut i: usize = 0;
    while i < n
        invariant
            n == parts.len(),
            n == specs.len(),
            i <= n,
            forall|p: Seq<MbrPhysPart>| #[trigger] valid_for(specs@, p, device_size) ==> p == parts@,
            forall|q: int| 0 <= q < i ==> part_fits(#[trigger] parts@[q], device_size),
        decreases n - i,
    {
        if parts[i].number >= 4 || !check_fits(&parts[i], device_size) {
            proof {
                assert forall|p: Seq<MbrPhysPart>| !#[trigger] valid_for(specs@, p, device_size) by {
                    if valid_for(specs@, p, device_size) {
                        assert(part_fits(p[i as int], device_size));
                    }
                }
            }
            if parts[i].number >= 4 {
                return Err(MbrBuilderError::NotPrimary(i));
            }
            return Err(MbrBuilderError::OutOfBounds(i));
        }
        i += 1;
    }

    let clash = find_clash(&parts);
    if let Some((a, b, dup)) = clash {
        proof {
            assert forall|p: Seq<MbrPhysPart>| !#[trigger] valid_for(specs@, p, device_size) by {
                if valid_for(specs@, p, device_size) {
                    assert(pair_ok(p[a as int], p[b as int]));
                }
            }
        }
        if dup {
            return Err(MbrBuilderError::DuplicateNumber(a, b));
        }
        return Err(MbrBuilderError::Overlap(a, b));
    }
    proof {
        lemma_valid_distinct(parts@, device_size);
    }

    let mut i: usize = 0;
    while i < n
        invariant
            n == parts.len(),
            n == specs.len(),
            i <= n,
            distinct_numbers(parts@),
            layout_valid(parts@, device_size),
            forall|p: Seq<MbrPhysPart>| #[trigger] valid_for(specs@, p, device_size) ==> p == parts@,
            forall|q: int| 0 <= q < i ==> #[trigger] meets_spec(specs@, parts@, device_size, q),
        decreases n - i,
    {
        if !check_spec(specs, &parts, device_size, i) {
            proof {
                assert forall|p: Seq<MbrPhysPart>| !#[trigger] valid_for(specs@, p, device_size) by {
                    if valid_for(specs@, p, device_size) {
                        assert(meets_spec(specs@, p, device_size, i as int));
                    }
                }
            }
            return Err(MbrBuilderError::ConstraintConflict(i));
        }
        i += 1;
    }
    Ok(parts)
}

} // verus!
