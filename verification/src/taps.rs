//! Which polynomials are opened where.
//!
//! A tap reads one polynomial of a group some number of cycles back. The taps
//! of one polynomial form a register; registers that are read at the same
//! distances share a combination, and are divided out together.
use vstd::prelude::*;

verus! {

/// One tap.
#[derive(Clone, Copy)]
pub struct TapData {
    /// The polynomial that is read, by its place in the group.
    pub offset: u16,
    /// How many cycles back it is read.
    pub back: u16,
    /// The combination its register belongs to.
    pub combo: u8,
    /// On the first tap of a register, the number of taps of the register.
    pub skip: u8,
}

impl TapData {
    /// The polynomial that is read, by its place in the group.
    pub fn offset(&self) -> (r: usize)
        ensures
            r == self.offset,
    {
        self.offset as usize
    }

    /// How many cycles back it is read.
    pub fn back(&self) -> (r: usize)
        ensures
            r == self.back,
    {
        self.back as usize
    }
}

/// The taps of one polynomial.
#[derive(Clone, Copy)]
pub struct RegisterRef {
    /// The place of the first tap.
    pub pos: usize,
    /// The number of taps.
    pub taps: usize,
    /// The combination.
    pub combo: usize,
}

impl RegisterRef {
    /// The number of taps of the register.
    pub fn size(&self) -> (r: usize)
        ensures
            r == self.taps,
    {
        self.taps
    }

    /// The combination the register belongs to.
    pub fn combo_id(&self) -> (r: usize)
        ensures
            r == self.combo,
    {
        self.combo
    }
}

/// The registers found from tap `pos` up to tap `end`.
pub open spec fn registers(taps: Seq<TapData>, pos: nat, end: nat) -> Seq<RegisterRef>
    decreases end - pos,
{
    if pos < end && taps[pos as int].skip > 0 && pos + taps[pos as int].skip <= end {
        let t = taps[pos as int];
        seq![RegisterRef { pos: pos as usize, taps: t.skip as usize, combo: t.combo as usize }] + registers(
            taps,
            pos + t.skip as nat,
            end,
        )
    } else {
        Seq::empty()
    }
}

/// Registers cover the taps from `pos` up to `end` without gap or overlap.
pub open spec fn registers_cover(taps: Seq<TapData>, pos: nat, end: nat) -> bool
    decreases end - pos,
{
    pos == end || {
        &&& pos < end
        &&& taps[pos as int].skip > 0
        &&& pos + taps[pos as int].skip <= end
        &&& registers_cover(taps, pos + taps[pos as int].skip as nat, end)
    }
}

/// The contents of a tap set.
pub struct Taps {
    pub taps: Seq<TapData>,
    /// The distances of all combinations, one combination after the other.
    pub combo_taps: Seq<u16>,
    /// Where each combination begins, and where the last one ends.
    pub combo_begin: Seq<u16>,
    /// Where each group begins, and where the last one ends.
    pub group_begin: Seq<usize>,
}

impl Taps {
    pub open spec fn num_groups(self) -> nat {
        (self.group_begin.len() - 1) as nat
    }

    pub open spec fn combos_size(self) -> nat {
        (self.combo_begin.len() - 1) as nat
    }

    pub open spec fn begin(self, group: int) -> nat {
        self.group_begin[group] as nat
    }

    pub open spec fn end(self, group: int) -> nat {
        self.group_begin[group + 1] as nat
    }

    /// The registers of a group.
    pub open spec fn group_regs(self, group: int) -> Seq<RegisterRef> {
        registers(self.taps, self.begin(group), self.end(group))
    }

    /// The number of polynomials in a group: one for each register.
    pub open spec fn group_size(self, group: int) -> nat {
        self.group_regs(group).len()
    }

    /// All registers, group by group.
    pub open spec fn regs(self) -> Seq<RegisterRef> {
        registers(self.taps, 0, self.taps.len())
    }

    /// The distances at which the registers of a combination are read.
    pub open spec fn combo(self, id: int) -> Seq<u16> {
        self.combo_taps.subrange(self.combo_begin[id] as int, self.combo_begin[id + 1] as int)
    }

    /// The taps of a group form whole registers, and refer to polynomials and
    /// combinations that exist.
    pub open spec fn group_wf(self, group: int) -> bool {
        &&& self.begin(group) < self.end(group) <= self.taps.len()
        &&& registers_cover(self.taps, self.begin(group), self.end(group))
        &&& forall|k: int|
            self.begin(group) <= k < self.end(group) ==> {
                &&& (#[trigger] self.taps[k]).offset < self.group_size(group)
                &&& self.taps[k].combo < self.combos_size()
            }
    }

    /// A combination has its place among the distances.
    pub open spec fn combo_wf(self, id: int) -> bool {
        self.combo_begin[id] <= self.combo_begin[id + 1] <= self.combo_taps.len()
    }

    /// The tap set is laid out as it should be.
    pub open spec fn wf(self) -> bool {
        &&& self.group_begin.len() >= 1
        &&& self.group_begin[0] == 0
        &&& self.group_begin.last() == self.taps.len()
        &&& self.taps.len() <= usize::MAX
        &&& 1 <= self.combo_begin.len() <= u32::MAX
        &&& forall|g: int| 0 <= g < self.num_groups() ==> #[trigger] self.group_wf(g)
        &&& forall|c: int| 0 <= c < self.combos_size() ==> #[trigger] self.combo_wf(c)
    }

    /// The `i`-th register of a group reads the `i`-th polynomial, at the
    /// distances of its combination.
    pub open spec fn register_consistent(self, group: int, i: int) -> bool {
        let r = self.group_regs(group)[i];
        &&& r.taps == self.combo(r.combo as int).len()
        &&& forall|j: int|
            0 <= j < r.taps ==> {
                &&& (#[trigger] self.taps[r.pos + j]).offset == i
                &&& self.taps[r.pos + j].back == self.combo(r.combo as int)[j]
            }
    }

    /// All registers agree with their place and their combination.
    pub open spec fn consistent(self) -> bool {
        forall|g: int, i: int|
            0 <= g < self.num_groups() && 0 <= i < self.group_size(g) ==> #[trigger] self.register_consistent(g, i)
    }
}

/// Registers lie between `pos` and `end`, the first at `pos`, each next one
/// where the one before it ends.
pub proof fn lemma_registers(taps: Seq<TapData>, pos: nat, end: nat)
    requires
        registers_cover(taps, pos, end),
        end <= taps.len() <= usize::MAX,
    ensures
        pos <= end,
        forall|i: int|
            0 <= i < registers(taps, pos, end).len() ==> {
                let r = #[trigger] registers(taps, pos, end)[i];
                &&& pos <= r.pos
                &&& 0 < r.taps
                &&& r.pos + r.taps <= end
                &&& r.combo == taps[r.pos as int].combo
                &&& r.taps == taps[r.pos as int].skip
            },
        pos < end ==> registers(taps, pos, end).len() > 0,
    decreases end - pos,
{
    if pos < end {
        let next = pos + taps[pos as int].skip as nat;
        lemma_registers(taps, next, end);
        let rest = registers(taps, next, end);
        let all = registers(taps, pos, end);
        assert forall|i: int| 0 <= i < all.len() implies {
            let r = #[trigger] all[i];
            &&& pos <= r.pos
            &&& 0 < r.taps
            &&& r.pos + r.taps <= end
            &&& r.combo == taps[r.pos as int].combo
            &&& r.taps == taps[r.pos as int].skip
        } by {
            if i > 0 {
                assert(all[i] == rest[i - 1]);
            }
        }
    }
}

/// Register `i` begins where the registers before it end.
pub proof fn lemma_register_split(taps: Seq<TapData>, pos: nat, end: nat, i: int)
    requires
        registers_cover(taps, pos, end),
        end <= taps.len() <= usize::MAX,
        0 <= i < registers(taps, pos, end).len(),
    ensures
        ({
            let r = registers(taps, pos, end)[i];
            &&& registers_cover(taps, r.pos as nat, end)
            &&& registers_cover(taps, pos, r.pos as nat)
            &&& registers(taps, pos, end).skip(i) == registers(taps, r.pos as nat, end)
            &&& registers(taps, pos, end).take(i) == registers(taps, pos, r.pos as nat)
        }),
    decreases i,
{
    let all = registers(taps, pos, end);
    lemma_registers(taps, pos, end);
    if i == 0 {
        assert(all.skip(0) =~= all);
        assert(all.take(0) =~= registers(taps, pos, pos));
    } else {
        let next = pos + taps[pos as int].skip as nat;
        let rest = registers(taps, next, end);
        lemma_register_split(taps, next, end, i - 1);
        lemma_registers(taps, next, end);
        let r = rest[i - 1];
        assert(all[i] == r);
        assert(all.skip(i) =~= rest.skip(i - 1));
        let here = registers(taps, pos, r.pos as nat);
        assert(here == seq![all[0]] + registers(taps, next, r.pos as nat));
        assert(all.take(i) =~= seq![all[0]] + rest.take(i - 1));
    }
}

/// Covers can be put together.
pub proof fn lemma_registers_concat(taps: Seq<TapData>, pos: nat, mid: nat, end: nat)
    requires
        registers_cover(taps, pos, mid),
        registers_cover(taps, mid, end),
        end <= taps.len() <= usize::MAX,
    ensures
        registers_cover(taps, pos, end),
        registers(taps, pos, end) == registers(taps, pos, mid) + registers(taps, mid, end),
        pos <= mid <= end,
    decreases mid - pos,
{
    lemma_registers(taps, mid, end);
    if pos == mid {
        assert(registers(taps, pos, end) =~= registers(taps, pos, mid) + registers(taps, mid, end));
    } else {
        let next = pos + taps[pos as int].skip as nat;
        lemma_registers_concat(taps, next, mid, end);
        assert(registers(taps, pos, end) =~= registers(taps, pos, mid) + registers(taps, mid, end));
    }
}

impl Taps {
    /// The registers of the first `g` groups are found in order from the start.
    pub proof fn lemma_regs_upto(self, g: int)
        requires
            self.wf(),
            0 <= g <= self.num_groups(),
        ensures
            self.begin(g) <= self.taps.len(),
            registers_cover(self.taps, 0, self.begin(g)),
            g < self.num_groups() ==> registers(self.taps, 0, self.end(g)) == registers(self.taps, 0, self.begin(g))
                + self.group_regs(g),
            g == self.num_groups() ==> self.begin(g) == self.taps.len(),
        decreases g,
    {
        if g > 0 {
            self.lemma_regs_upto(g - 1);
            assert(self.group_wf(g - 1));
            lemma_registers_concat(self.taps, 0, self.begin(g - 1), self.end(g - 1));
        }
        if g < self.num_groups() {
            assert(self.group_wf(g));
            lemma_registers_concat(self.taps, 0, self.begin(g), self.end(g));
        }
    }

    /// Where each register lies.
    pub proof fn lemma_group_regs(self, g: int)
        requires
            self.wf(),
            0 <= g < self.num_groups(),
        ensures
            self.group_size(g) > 0,
            forall|i: int|
                0 <= i < self.group_size(g) ==> {
                    let r = #[trigger] self.group_regs(g)[i];
                    &&& self.begin(g) <= r.pos
                    &&& 0 < r.taps
                    &&& r.pos + r.taps <= self.end(g)
                    &&& r.combo < self.combos_size()
                },
    {
        assert(self.group_wf(g));
        lemma_registers(self.taps, self.begin(g), self.end(g));
        assert forall|i: int| 0 <= i < self.group_size(g) implies (#[trigger] self.group_regs(g)[i]).combo
            < self.combos_size() by {
            let r = self.group_regs(g)[i];
            assert(self.taps[r.pos as int].combo < self.combos_size());
        }
    }

    /// The registers of all groups cover all taps.
    pub proof fn lemma_regs(self)
        requires
            self.wf(),
        ensures
            registers_cover(self.taps, 0, self.taps.len()),
    {
        self.lemma_regs_upto(self.num_groups() as int);
    }
}

/// Where things stand in a tap set: each group and each combination lies between
/// its own beginning and that of the next one.
pub proof fn law_tap_sets_are_laid_out_in_order(taps: Taps, g: int, c: int)
    requires
        taps.wf(),
        0 <= g < taps.group_begin.len() - 1,
        0 <= c < taps.combo_begin.len() - 1,
    ensures
        taps.num_groups() == taps.group_begin.len() - 1,
        taps.combos_size() == taps.combo_begin.len() - 1,
        taps.begin(g) == taps.group_begin[g],
        taps.end(g) == taps.group_begin[g + 1],
        taps.combo(c).len() == taps.combo_begin[c + 1] - taps.combo_begin[c],
        forall|j: int|
            0 <= j < taps.combo(c).len() ==> #[trigger] taps.combo(c)[j] == taps.combo_taps[taps.combo_begin[c] + j],
{
    assert(taps.combo_wf(c));
}

/// The taps of a group form registers: the first begins with the group, each
/// next one where the one before it ends, and the last ends with the group. The
/// first tap of a register says how many there are, and to what combination they
/// belong.
pub proof fn law_registers_partition_the_group(taps: Taps, g: int, i: int)
    requires
        taps.wf(),
        0 <= g < taps.num_groups(),
        0 <= i < taps.group_size(g),
    ensures
        ({
            let regs = taps.group_regs(g);
            let r = regs[i];
            &&& regs.len() == taps.group_size(g)
            &&& regs[0].pos == taps.group_begin[g]
            &&& r.pos + r.taps == if i + 1 < regs.len() {
                regs[i + 1].pos
            } else {
                taps.group_begin[g + 1]
            }
            &&& r.taps == taps.taps[r.pos as int].skip
            &&& r.combo == taps.taps[r.pos as int].combo
            &&& r.taps > 0
        }),
{
    let (begin, end) = (taps.begin(g), taps.end(g));
    let regs = taps.group_regs(g);
    assert(taps.group_wf(g));
    lemma_registers(taps.taps, begin, end);
    lemma_register_split(taps.taps, begin, end, i);
    let r = regs[i];
    let rest = registers(taps.taps, r.pos as nat, end);
    let next = (r.pos + r.taps) as nat;
    let after = registers(taps.taps, next, end);
    assert(rest[0] == regs[i]);
    lemma_registers(taps.taps, next, end);
    assert(rest == seq![rest[0]] + after);
    if i + 1 < regs.len() {
        assert(rest[1] == after[0]);
        assert(rest[1] == regs[i + 1]);
    } else {
        assert(rest.len() == 1);
    }
}

/// Which tap sets can be used: groups and combinations follow each other, groups
/// are not empty, registers cover them, and polynomials and combinations that are
/// referred to exist. How many of each there are is not limited further.
pub proof fn law_any_tap_set_laid_out_in_order_is_accepted(taps: Taps)
    ensures
        taps.wf() <==> {
            &&& taps.group_begin.len() >= 1
            &&& taps.group_begin[0] == 0
            &&& taps.group_begin.last() == taps.taps.len()
            &&& taps.taps.len() <= usize::MAX
            &&& 1 <= taps.combo_begin.len() <= 0xffff_ffff
            &&& forall|c: int|
                0 <= c < taps.combo_begin.len() - 1 ==> taps.combo_begin[c] <= #[trigger] taps.combo_begin[c + 1]
                    <= taps.combo_taps.len()
            &&& forall|g: int|
                0 <= g < taps.group_begin.len() - 1 ==> {
                    let (begin, end) = (taps.group_begin[g], #[trigger] taps.group_begin[g + 1]);
                    &&& begin < end <= taps.taps.len()
                    &&& registers_cover(taps.taps, begin as nat, end as nat)
                    &&& forall|k: int|
                        begin <= k < end ==> (#[trigger] taps.taps[k]).offset < registers(
                            taps.taps,
                            begin as nat,
                            end as nat,
                        ).len() && taps.taps[k].combo < taps.combo_begin.len() - 1
                }
        },
{
    if taps.wf() {
        assert forall|c: int| 0 <= c < taps.combo_begin.len() - 1 implies taps.combo_begin[c]
            <= #[trigger] taps.combo_begin[c + 1] <= taps.combo_taps.len() by {
            assert(taps.combo_wf(c));
        }
        assert forall|g: int| 0 <= g < taps.group_begin.len() - 1 implies {
            let (begin, end) = (taps.group_begin[g], #[trigger] taps.group_begin[g + 1]);
            &&& begin < end <= taps.taps.len()
            &&& registers_cover(taps.taps, begin as nat, end as nat)
            &&& forall|k: int|
                begin <= k < end ==> (#[trigger] taps.taps[k]).offset < registers(
                    taps.taps,
                    begin as nat,
                    end as nat,
                ).len() && taps.taps[k].combo < taps.combo_begin.len() - 1
        } by {
            assert(taps.group_wf(g));
        }
    }
}

/// Registers cover a range of taps if it is empty, or begins with a register
/// that lies within it and is followed by others that cover the rest.
pub proof fn law_registers_cover_step_by_step(taps: Seq<TapData>, pos: nat, end: nat)
    requires
        pos < end <= taps.len(),
    ensures
        registers_cover(taps, end, end),
        registers_cover(taps, pos, end) <==> {
            &&& taps[pos as int].skip > 0
            &&& pos + taps[pos as int].skip <= end
            &&& registers_cover(taps, pos + taps[pos as int].skip as nat, end)
        },
{
}

/// The taps of a circuit.
pub struct TapSet<'a> {
    pub taps: &'a [TapData],
    pub combo_taps: &'a [u16],
    pub combo_begin: &'a [u16],
    pub group_begin: &'a [usize],
    pub group_names: &'a [&'static str],
}

impl<'a> View for TapSet<'a> {
    type V = Taps;

    open spec fn view(&self) -> Taps {
        Taps {
            taps: self.taps@,
            combo_taps: self.combo_taps@,
            combo_begin: self.combo_begin@,
            group_begin: self.group_begin@,
        }
    }
}

impl<'a> TapSet<'a> {
    /// The tap set is laid out as it should be, and its groups are named.
    pub open spec fn wf(&self) -> bool {
        &&& self@.wf()
        &&& self.group_names@.len() == self@.num_groups()
    }

    /// The number of groups.
    pub fn num_groups(&self) -> (r: usize)
        requires
            self.wf(),
        ensures
            r == self@.num_groups(),
    {
        self.group_begin.len() - 1
    }

    /// The name of a group.
    pub fn group_name(&self, group: usize) -> (r: &'static str)
        requires
            self.wf(),
            group < self@.num_groups(),
        ensures
            r == self.group_names@[group as int],
    {
        self.group_names[group]
    }

    /// The registers found from tap `pos` up to tap `end`.
    fn collect_registers(&self, pos: usize, end: usize) -> (r: Vec<RegisterRef>)
        requires
            end <= self.taps@.len(),
            registers_cover(self.taps@, pos as nat, end as nat),
        ensures
            r@ == registers(self.taps@, pos as nat, end as nat),
    {
        let mut r: Vec<RegisterRef> = Vec::new();
        let total: usize = self.taps.len();
        let mut at: usize = pos;
        let ghost all = registers(self.taps@, pos as nat, end as nat);
        assert(r@ + all =~= all);
        while at < end
            invariant
                end <= self.taps@.len() == total,
                registers_cover(self.taps@, at as nat, end as nat),
                all == registers(self.taps@, pos as nat, end as nat),
                r@ + registers(self.taps@, at as nat, end as nat) == all,
            decreases end - at,
        {
            let tap = self.taps[at];
            let reg = RegisterRef { pos: at, taps: tap.skip as usize, combo: tap.combo as usize };
            proof {
                let next = at as nat + tap.skip as nat;
                lemma_registers(self.taps@, next, end as nat);
                assert(r@ + (seq![reg] + registers(self.taps@, next, end as nat)) =~= r@.push(reg) + registers(
                    self.taps@,
                    next,
                    end as nat,
                ));
            }
            r.push(reg);
            at = at + tap.skip as usize;
        }
        assert(r@ =~= all);
        r
    }

    /// The registers of a group.
    pub fn group_regs(&self, group: usize) -> (r: Vec<RegisterRef>)
        requires
            self.wf(),
            group < self@.num_groups(),
        ensures
            r@ == self@.group_regs(group as int),
    {
        assert(self@.group_wf(group as int));
        self.collect_registers(self.group_begin[group], self.group_begin[group + 1])
    }

    /// The number of polynomials in a group.
    pub fn group_size(&self, group: usize) -> (r: usize)
        requires
            self.wf(),
            group < self@.num_groups(),
        ensures
            r == self@.group_size(group as int),
            r > 0,
    {
        proof {
            self@.lemma_group_regs(group as int);
        }
        self.group_regs(group).len()
    }

    /// The taps of a group.
    pub fn group_taps(&self, group: usize) -> (r: &[TapData])
        requires
            self.wf(),
            group < self@.num_groups(),
        ensures
            r@ == self@.taps.subrange(self@.begin(group as int) as int, self@.end(group as int) as int),
    {
        assert(self@.group_wf(group as int));
        &self.taps[self.group_begin[group]..self.group_begin[group + 1]]
    }

    /// All registers, group by group.
    pub fn regs(&self) -> (r: Vec<RegisterRef>)
        requires
            self.wf(),
        ensures
            r@ == self@.regs(),
    {
        proof {
            self@.lemma_regs();
        }
        self.collect_registers(0, self.taps.len())
    }

    /// The number of combinations.
    pub fn combos_size(&self) -> (r: usize)
        requires
            self.wf(),
        ensures
            r == self@.combos_size(),
            r < u32::MAX,
    {
        self.combo_begin.len() - 1
    }

    /// The distances at which the registers of a combination are read.
    pub fn get_combo(&self, id: usize) -> (r: &[u16])
        requires
            self.wf(),
            id < self@.combos_size(),
        ensures
            r@ == self@.combo(id as int),
    {
        assert(self@.combo_wf(id as int));
        &self.combo_taps[self.combo_begin[id] as usize..self.combo_begin[id + 1] as usize]
    }
}

} // verus!
