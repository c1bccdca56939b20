//! The register allocator and assembly emitter, as a state machine over mathematical values.
//!
//! Seven physical registers (`r0`..`r6`) hold virtual registers; `r7` holds the base
//! address of the spill area. A virtual register in use lives in a physical register, or, once
//! evicted, in a spill slot. When no physical register is free, the least recently used
//! one is evicted: its virtual register is stored to its spill slot (a new slot the first time).
//! Slot `k` is addressed as the spill base plus `k`, by adding `k` to `r7` around the access.
use vstd::prelude::*;

use crate::ir::InstrView;
use crate::text::decimal;

verus! {

/// The number of physical registers available for virtual registers.
pub open spec fn num_regs() -> usize {
    7
}

/// The register holding the base address of the spill area.
pub open spec fn spill_base_reg() -> usize {
    7
}

/// The base address of the spill area.
pub open spec fn spill_mem_base() -> u16 {
    0x4000
}

/// The allocator's state and the assembly emitted so far.
pub struct WState {
    /// Physical registers holding no virtual register.
    pub free: Set<usize>,
    /// The physical register of each virtual register that lives in one.
    pub map: Map<usize, usize>,
    /// The spill slot of each virtual register that has been evicted.
    pub slots: Map<usize, u16>,
    /// The next spill slot to hand out.
    pub next_slot: u16,
    /// The physical registers in use, least recently used first.
    pub order: Seq<usize>,
    /// The assembly text emitted so far.
    pub out: Seq<char>,
}

/// A line of assembly.
pub open spec fn line(s: Seq<char>) -> Seq<char> {
    s + "\n"@
}

/// The name of a physical register.
pub open spec fn reg_name(r: usize) -> Seq<char> {
    "r"@ + decimal(r as nat)
}

/// The state before any instruction: all registers free, and the spill base loaded.
pub open spec fn initial_state() -> WState {
    WState {
        free: Set::new(|r: usize| r < num_regs()),
        map: Map::empty(),
        slots: Map::empty(),
        next_slot: 0,
        order: seq![],
        out: line("LD "@ + reg_name(spill_base_reg()) + ", "@ + decimal(spill_mem_base() as nat)),
    }
}

/// `s` without any occurrence of `r`.
pub open spec fn without(s: Seq<usize>, r: usize) -> Seq<usize>
    decreases s.len(),
{
    if s.len() == 0 {
        s
    } else if s.last() == r {
        without(s.drop_last(), r)
    } else {
        without(s.drop_last(), r).push(s.last())
    }
}

/// The order after using `r`: `r` becomes the most recently used.
pub open spec fn touch(order: Seq<usize>, r: usize) -> Seq<usize> {
    without(order, r).push(r)
}

/// The lowest free register from `k` on, or `num_regs()` when there is none.
pub open spec fn lowest_free_from(free: Set<usize>, k: usize) -> usize
    decreases num_regs() - k,
{
    if k >= num_regs() {
        num_regs()
    } else if free.contains(k) {
        k
    } else {
        lowest_free_from(free, (k + 1) as usize)
    }
}

/// Whether some virtual register lives in the physical register `r`.
pub open spec fn is_mapped(map: Map<usize, usize>, r: usize) -> bool {
    exists|v: usize| map.contains_key(v) && map[v] == r
}

/// The virtual register that lives in the physical register `r`.
pub open spec fn owner(map: Map<usize, usize>, r: usize) -> usize {
    choose|v: usize| map.contains_key(v) && map[v] == r
}

/// `map` without the virtual registers living in `r`.
pub open spec fn unmap_reg(map: Map<usize, usize>, r: usize) -> Map<usize, usize> {
    Map::new(|v: usize| map.contains_key(v) && map[v] != r, |v: usize| map[v])
}

/// The lines storing register `reg` to spill slot `slot`.
pub open spec fn spill_store_text(slot: u16, reg: usize) -> Seq<char> {
    line("ADD "@ + reg_name(spill_base_reg()) + ", "@ + decimal(slot as nat))
        + line("ST ["@ + reg_name(spill_base_reg()) + "], "@ + reg_name(reg))
        + line("SUB "@ + reg_name(spill_base_reg()) + ", "@ + decimal(slot as nat))
}

/// The lines loading register `reg` from spill slot `slot`.
pub open spec fn spill_load_text(slot: u16, reg: usize) -> Seq<char> {
    line("ADD "@ + reg_name(spill_base_reg()) + ", "@ + decimal(slot as nat))
        + line("LD "@ + reg_name(reg) + ", ["@ + reg_name(spill_base_reg()) + "]"@)
        + line("SUB "@ + reg_name(spill_base_reg()) + ", "@ + decimal(slot as nat))
}

/// Takes a physical register: the lowest free one, or else the least recently used one,
/// whose virtual register is stored to its spill slot. `None` when a new spill slot is
/// needed but the slot counter is exhausted.
pub open spec fn alloc_spec(s: WState) -> Option<(WState, usize)> {
    let lf = lowest_free_from(s.free, 0);
    if lf < num_regs() {
        Some((WState { free: s.free.remove(lf), ..s }, lf))
    } else if s.order.len() == 0 {
        None
    } else {
        let victim = s.order[0];
        let vv = owner(s.map, victim);
        if s.slots.contains_key(vv) {
            let slot = s.slots[vv];
            Some((WState {
                out: s.out + spill_store_text(slot, victim),
                map: s.map.remove(vv),
                order: s.order.drop_first(),
                ..s
            }, victim))
        } else if s.next_slot == u16::MAX {
            None
        } else {
            let slot = s.next_slot;
            Some((WState {
                slots: s.slots.insert(vv, slot),
                next_slot: (slot + 1) as u16,
                out: s.out + spill_store_text(slot, victim),
                map: s.map.remove(vv),
                order: s.order.drop_first(),
                ..s
            }, victim))
        }
    }
}

/// The physical register of virtual register `v`, bringing it into one if needed (from its
/// spill slot if it has one), and making it the most recently used.
pub open spec fn get_reg_spec(s: WState, v: usize) -> Option<(WState, usize)> {
    if s.map.contains_key(v) {
        let r = s.map[v];
        Some((WState { order: touch(s.order, r), ..s }, r))
    } else {
        match alloc_spec(s) {
            None => None,
            Some((s1, r)) => {
                let out = if s.slots.contains_key(v) {
                    s1.out + spill_load_text(s.slots[v], r)
                } else {
                    s1.out
                };
                Some((WState { out, map: s1.map.insert(v, r), order: touch(s1.order, r), ..s1 }, r))
            },
        }
    }
}

/// Frees the physical register `r`, forgetting its virtual register and that one's spill slot.
pub open spec fn free_reg_spec(s: WState, r: usize) -> WState {
    WState {
        free: s.free.insert(r),
        slots: if is_mapped(s.map, r) { s.slots.remove(owner(s.map, r)) } else { s.slots },
        map: unmap_reg(s.map, r),
        order: without(s.order, r),
        ..s
    }
}

/// Emits one line.
pub open spec fn emit(s: WState, text: Seq<char>) -> WState {
    WState { out: s.out + line(text), ..s }
}

/// `mnemonic dest, right` after copying `left` into `dest`.
pub open spec fn binop_spec(s: WState, mnemonic: Seq<char>, left: usize, right: usize, dest: usize) -> Option<WState> {
    match get_reg_spec(s, dest) {
        None => None,
        Some((s1, d)) => match get_reg_spec(s1, left) {
            None => None,
            Some((s2, l)) => match get_reg_spec(s2, right) {
                None => None,
                Some((s3, r)) => Some(emit(
                    emit(s3, "LD "@ + reg_name(d) + ", "@ + reg_name(l)),
                    mnemonic + " "@ + reg_name(d) + ", "@ + reg_name(r),
                )),
            },
        },
    }
}

/// One instruction that uses one register.
pub open spec fn unary_spec(s: WState, v: usize, mnemonic: Seq<char>) -> Option<WState> {
    match get_reg_spec(s, v) {
        None => None,
        Some((s1, r)) => Some(emit(s1, mnemonic + " "@ + reg_name(r))),
    }
}

/// The state after one instruction; `None` when the spill slots run out.
#[verifier::opaque]
pub open spec fn step_spec(s: WState, i: InstrView) -> Option<WState> {
    match i {
        InstrView::LoadImm(dest, n) => match get_reg_spec(s, dest as usize) {
            None => None,
            Some((s1, d)) => Some(emit(s1, "LD "@ + reg_name(d) + ", "@ + decimal(n as nat))),
        },
        InstrView::Print(v) => match get_reg_spec(s, v as usize) {
            None => None,
            Some((s1, r)) => Some(free_reg_spec(emit(s1, "OUT"@ + " "@ + reg_name(r)), r)),
        },
        InstrView::Add { left, right, dest } => binop_spec(s, "ADD"@, left as usize, right as usize, dest as usize),
        InstrView::Sub { left, right, dest } => binop_spec(s, "SUB"@, left as usize, right as usize, dest as usize),
        InstrView::Mul { left, right, dest } => binop_spec(s, "MUL"@, left as usize, right as usize, dest as usize),
        InstrView::Div { left, right, dest } => binop_spec(s, "DIV"@, left as usize, right as usize, dest as usize),
        InstrView::Mod { left, right, dest } => binop_spec(s, "MOD"@, left as usize, right as usize, dest as usize),
        InstrView::Cmp(a, b) => match get_reg_spec(s, a as usize) {
            None => None,
            Some((s1, l)) => match get_reg_spec(s1, b as usize) {
                None => None,
                Some((s2, r)) => Some(emit(s2, "CMP"@ + " "@ + reg_name(l) + ", "@ + reg_name(r))),
            },
        },
        InstrView::Drop(v) => match get_reg_spec(s, v as usize) {
            None => None,
            Some((s1, r)) => Some(free_reg_spec(s1, r)),
        },
        InstrView::Label(name) => Some(emit(s, "\n"@ + name + ":"@)),
        InstrView::Jmp(name) => Some(emit(s, "JMP"@ + " "@ + name)),
        InstrView::Jeq(name) => Some(emit(s, "JEQ"@ + " "@ + name)),
        InstrView::Jne(name) => Some(emit(s, "JNE"@ + " "@ + name)),
        InstrView::Mov(dest, other) => match get_reg_spec(s, dest as usize) {
            None => None,
            Some((s1, d)) => match get_reg_spec(s1, other as usize) {
                None => None,
                Some((s2, o)) => Some(emit(s2, "LD"@ + " "@ + reg_name(d) + ", "@ + reg_name(o))),
            },
        },
        InstrView::Push(v) => unary_spec(s, v as usize, "PUSH"@),
        InstrView::Pop(v) => unary_spec(s, v as usize, "POP"@),
    }
}

/// The state after the instructions `instrs` from `i` on; `None` when the spill slots run out.
pub open spec fn run_from(s: WState, instrs: Seq<InstrView>, i: int) -> Option<WState>
    decreases instrs.len() - i,
{
    if i < 0 || i >= instrs.len() {
        Some(s)
    } else {
        match step_spec(s, instrs[i]) {
            None => None,
            Some(s1) => run_from(s1, instrs, i + 1),
        }
    }
}

// ---------------------------------------------------------------------------
// The register-file invariant

/// Every physical register is either free or holds exactly one virtual register; the order
/// lists the registers in use, each once.
#[verifier::opaque]
pub open spec fn inv(s: WState) -> bool {
    &&& forall|r: usize| #[trigger] s.free.contains(r) ==> r < num_regs()
    &&& forall|v: usize| #[trigger] s.map.contains_key(v) ==> s.map[v] < num_regs() && !s.free.contains(s.map[v])
    &&& forall|r: usize| r < num_regs() ==> s.free.contains(r) || #[trigger] is_mapped(s.map, r)
    &&& forall|v1: usize, v2: usize|
        #![trigger s.map[v1], s.map[v2]]
        s.map.contains_key(v1) && s.map.contains_key(v2) && s.map[v1] == s.map[v2] ==> v1 == v2
    &&& s.order.no_duplicates()
    &&& forall|k: int| 0 <= k < s.order.len() ==> #[trigger] is_mapped(s.map, s.order[k])
    &&& forall|v: usize| #[trigger] s.map.contains_key(v) ==> s.order.contains(s.map[v])
}


/// The invariant, for a state in which the physical register `x` has just been taken:
/// `x` is neither free nor in use.
pub open spec fn inv_except(s: WState, x: usize) -> bool {
    &&& x < num_regs()
    &&& !s.free.contains(x)
    &&& forall|r: usize| #[trigger] s.free.contains(r) ==> r < num_regs()
    &&& forall|v: usize| #[trigger] s.map.contains_key(v)
        ==> s.map[v] < num_regs() && !s.free.contains(s.map[v]) && s.map[v] != x
    &&& forall|r: usize| r < num_regs() && r != x ==> s.free.contains(r) || #[trigger] is_mapped(s.map, r)
    &&& forall|v1: usize, v2: usize|
        #![trigger s.map[v1], s.map[v2]]
        s.map.contains_key(v1) && s.map.contains_key(v2) && s.map[v1] == s.map[v2] ==> v1 == v2
    &&& s.order.no_duplicates()
    &&& forall|k: int| 0 <= k < s.order.len() ==> #[trigger] is_mapped(s.map, s.order[k])
    &&& forall|v: usize| #[trigger] s.map.contains_key(v) ==> s.order.contains(s.map[v])
}

pub proof fn lemma_without(s: Seq<usize>, r: usize)
    ensures
        forall|x: usize| #[trigger] without(s, r).contains(x) <==> s.contains(x) && x != r,
        s.no_duplicates() ==> without(s, r).no_duplicates(),
        !s.contains(r) ==> without(s, r) == s,
        without(s, r).len() <= s.len(),
    decreases s.len(),
{
    if s.len() > 0 {
        let p = s.drop_last();
        lemma_without(p, r);
        assert(s == p.push(s.last()));
        assert forall|x: usize| #[trigger] without(s, r).contains(x) <==> s.contains(x) && x != r by {
            if s.contains(x) && x != r {
                let k = choose|k: int| 0 <= k < s.len() && s[k] == x;
                if k < s.len() - 1 {
                    assert(p[k] == x);
                    assert(without(p, r).contains(x));
                    if s.last() != r {
                        let j = choose|j: int| 0 <= j < without(p, r).len() && without(p, r)[j] == x;
                        assert(without(s, r)[j] == x);
                    }
                } else {
                    assert(without(s, r).last() == x);
                }
            }
            if without(s, r).contains(x) {
                let j = choose|j: int| 0 <= j < without(s, r).len() && without(s, r)[j] == x;
                if s.last() == r || j < without(p, r).len() {
                    assert(without(p, r)[j] == x);
                    assert(without(p, r).contains(x));
                    let k = choose|k: int| 0 <= k < p.len() && p[k] == x;
                    assert(s[k] == x);
                } else {
                    assert(s[s.len() - 1] == x);
                }
            }
        }
        if s.no_duplicates() {
            assert(p.no_duplicates()) by {
                assert forall|i: int, j: int| 0 <= i < p.len() && 0 <= j < p.len() && i != j implies p[i] != p[j] by {
                    assert(s[i] == p[i] && s[j] == p[j]);
                }
            }
            if s.last() != r {
                assert(!without(p, r).contains(s.last())) by {
                    if without(p, r).contains(s.last()) {
                        assert(p.contains(s.last()));
                        let k = choose|k: int| 0 <= k < p.len() && p[k] == s.last();
                        assert(s[k] == s[s.len() - 1]);
                    }
                }
            }
        }
        if !s.contains(r) {
            assert(s.last() != r);
            assert(!p.contains(r)) by {
                if p.contains(r) {
                    let k = choose|k: int| 0 <= k < p.len() && p[k] == r;
                    assert(s[k] == r);
                }
            }
        }
    }
}

pub proof fn lemma_lowest_free(free: Set<usize>, k: usize)
    requires
        k <= num_regs(),
    ensures
        k <= lowest_free_from(free, k) <= num_regs(),
        lowest_free_from(free, k) < num_regs() ==> free.contains(lowest_free_from(free, k)),
        forall|j: usize| k <= j < lowest_free_from(free, k) ==> !free.contains(j),
    decreases num_regs() - k,
{
    if k < num_regs() && !free.contains(k) {
        lemma_lowest_free(free, (k + 1) as usize);
    }
}

pub proof fn lemma_alloc(s: WState)
    requires
        inv(s),
    ensures
        match alloc_spec(s) {
            Some((s1, r)) => {
                &&& inv_except(s1, r)
                &&& s1.map.dom().subset_of(s.map.dom())
                &&& forall|v: usize| #[trigger] s1.map.contains_key(v) ==> s1.map[v] == s.map[v]
            },
            None => s.next_slot == u16::MAX,
        },
{
    reveal(inv);
    lemma_lowest_free(s.free, 0);
    let lf = lowest_free_from(s.free, 0);
    if lf < num_regs() {
        let s1 = WState { free: s.free.remove(lf), ..s };
        assert forall|r: usize| r < num_regs() && r != lf implies s1.free.contains(r) || #[trigger] is_mapped(s1.map, r) by {
            assert(s.free.contains(r) || is_mapped(s.map, r));
        }
        assert forall|k: int| 0 <= k < s1.order.len() implies #[trigger] is_mapped(s1.map, s1.order[k]) by {
            assert(is_mapped(s.map, s.order[k]));
        }
    } else {
        assert(!s.free.contains(0usize));
        assert(is_mapped(s.map, 0usize));
        let w = choose|v: usize| s.map.contains_key(v) && s.map[v] == 0usize;
        assert(s.order.contains(s.map[w]));
        assert(s.order.len() > 0);
        let victim = s.order[0];
        assert(is_mapped(s.map, s.order[0]));
        let vv = owner(s.map, victim);
        assert(s.map.contains_key(vv) && s.map[vv] == victim);
        if s.slots.contains_key(vv) || s.next_slot < u16::MAX {
            let (s1, r) = alloc_spec(s).unwrap();
            assert(r == victim);
            assert(s1.map == s.map.remove(vv));
            assert(s1.order == s.order.drop_first());
            assert(s1.free == s.free);
            assert forall|v: usize| #[trigger] s1.map.contains_key(v)
                implies s1.map[v] < num_regs() && !s1.free.contains(s1.map[v]) && s1.map[v] != r by {
                assert(s.map.contains_key(v) && v != vv);
            }
            assert forall|r2: usize| r2 < num_regs() && r2 != r implies s1.free.contains(r2) || #[trigger] is_mapped(s1.map, r2) by {
                lemma_lowest_free(s.free, 0);
                assert(!s.free.contains(r2));
                assert(is_mapped(s.map, r2));
                let w2 = choose|v: usize| s.map.contains_key(v) && s.map[v] == r2;
                assert(w2 != vv);
                assert(s1.map.contains_key(w2) && s1.map[w2] == r2);
            }
            assert(s1.order.no_duplicates());
            assert forall|k: int| 0 <= k < s1.order.len() implies #[trigger] is_mapped(s1.map, s1.order[k]) by {
                assert(s1.order[k] == s.order[k + 1]);
                assert(is_mapped(s.map, s.order[k + 1]));
                let w2 = choose|v: usize| s.map.contains_key(v) && s.map[v] == s.order[k + 1];
                assert(s.order[k + 1] != s.order[0]);
                assert(w2 != vv);
                assert(s1.map.contains_key(w2) && s1.map[w2] == s1.order[k]);
            }
            assert forall|v: usize| #[trigger] s1.map.contains_key(v) implies s1.order.contains(s1.map[v]) by {
                assert(s.map.contains_key(v) && v != vv);
                assert(s.order.contains(s.map[v]));
                let k = choose|k: int| 0 <= k < s.order.len() && s.order[k] == s.map[v];
                assert(s.map[v] != victim);
                assert(k != 0);
                assert(s1.order[k - 1] == s.map[v]);
            }
        }
    }
}

/// Bringing a virtual register into a physical one keeps the invariant, and gives a
/// physical register below `num_regs()` that the virtual register now lives in.
pub proof fn lemma_get_reg(s: WState, v: usize)
    requires
        inv(s),
    ensures
        match get_reg_spec(s, v) {
            Some((s1, r)) => {
                &&& inv(s1)
                &&& r < num_regs()
                &&& s1.map.contains_key(v)
                &&& s1.map[v] == r
                &&& s1.order.last() == r
            },
            None => !s.map.contains_key(v) && s.next_slot == u16::MAX,
        },
{
    reveal(inv);
    if s.map.contains_key(v) {
        let r = s.map[v];
        let s1 = WState { order: touch(s.order, r), ..s };
        lemma_without(s.order, r);
        assert forall|k: int| 0 <= k < s1.order.len() implies #[trigger] is_mapped(s1.map, s1.order[k]) by {
            if k < s1.order.len() - 1 {
                assert(without(s.order, r).contains(s1.order[k]));
                let j = choose|j: int| 0 <= j < s.order.len() && s.order[j] == s1.order[k];
                assert(is_mapped(s.map, s.order[j]));
            }
        }
        assert forall|w: usize| #[trigger] s1.map.contains_key(w) implies s1.order.contains(s1.map[w]) by {
            if s.map[w] == r {
                assert(s1.order[s1.order.len() - 1] == r);
            } else {
                assert(s.order.contains(s.map[w]));
                assert(without(s.order, r).contains(s.map[w]));
                let j = choose|j: int| 0 <= j < without(s.order, r).len() && without(s.order, r)[j] == s.map[w];
                assert(s1.order[j] == s.map[w]);
            }
        }
        assert(s1.order.no_duplicates()) by {
            assert forall|i: int, j: int| 0 <= i < s1.order.len() && 0 <= j < s1.order.len() && i != j implies s1.order[i] != s1.order[j] by {
                let n = s1.order.len() - 1;
                if i == n {
                    assert(!without(s.order, r).contains(r));
                    assert(without(s.order, r)[j] == s1.order[j]);
                } else if j == n {
                    assert(!without(s.order, r).contains(r));
                    assert(without(s.order, r)[i] == s1.order[i]);
                } else {
                    assert(without(s.order, r)[i] == s1.order[i]);
                    assert(without(s.order, r)[j] == s1.order[j]);
                }
            }
        }
    } else {
        lemma_alloc(s);
        match alloc_spec(s) {
            None => {},
            Some((s1, r)) => {
                let s2 = get_reg_spec(s, v).unwrap().0;
                assert(s2.map == s1.map.insert(v, r));
                assert(s2.order == touch(s1.order, r));
                assert(s2.free == s1.free);
                assert(!s1.map.contains_key(v));
                assert(!s1.order.contains(r)) by {
                    if s1.order.contains(r) {
                        let k = choose|k: int| 0 <= k < s1.order.len() && s1.order[k] == r;
                        assert(is_mapped(s1.map, s1.order[k]));
                        let w = choose|w: usize| s1.map.contains_key(w) && s1.map[w] == r;
                    }
                }
                lemma_without(s1.order, r);
                assert(s2.order == s1.order.push(r));
                assert forall|w: usize| #[trigger] s2.map.contains_key(w)
                    implies s2.map[w] < num_regs() && !s2.free.contains(s2.map[w]) by {
                    if w != v {
                        assert(s1.map.contains_key(w));
                    }
                }
                assert forall|r2: usize| r2 < num_regs() implies s2.free.contains(r2) || #[trigger] is_mapped(s2.map, r2) by {
                    if r2 == r {
                        assert(s2.map.contains_key(v) && s2.map[v] == r);
                    } else if !s1.free.contains(r2) {
                        assert(is_mapped(s1.map, r2));
                        let w = choose|w: usize| s1.map.contains_key(w) && s1.map[w] == r2;
                        assert(s2.map.contains_key(w) && s2.map[w] == r2);
                    }
                }
                assert forall|v1: usize, v2: usize|
                    s2.map.contains_key(v1) && s2.map.contains_key(v2) && s2.map[v1] == s2.map[v2] implies v1 == v2 by {
                    if v1 != v && v2 != v {
                        assert(s1.map[v1] == s1.map[v2]);
                    } else if v1 == v && v2 != v {
                        assert(s1.map.contains_key(v2));
                    } else if v2 == v && v1 != v {
                        assert(s1.map.contains_key(v1));
                    }
                }
                assert(s2.order.no_duplicates()) by {
                    assert forall|i: int, j: int| 0 <= i < s2.order.len() && 0 <= j < s2.order.len() && i != j implies s2.order[i] != s2.order[j] by {
                        let n = s1.order.len();
                        if i == n {
                            assert(s1.order[j] == s2.order[j]);
                        } else if j == n {
                            assert(s1.order[i] == s2.order[i]);
                        } else {
                            assert(s1.order[i] == s2.order[i] && s1.order[j] == s2.order[j]);
                        }
                    }
                }
                assert forall|k: int| 0 <= k < s2.order.len() implies #[trigger] is_mapped(s2.map, s2.order[k]) by {
                    if k == s1.order.len() {
                        assert(s2.map.contains_key(v) && s2.map[v] == r);
                    } else {
                        assert(s2.order[k] == s1.order[k]);
                        assert(is_mapped(s1.map, s1.order[k]));
                        let w = choose|w: usize| s1.map.contains_key(w) && s1.map[w] == s1.order[k];
                        assert(s2.map.contains_key(w) && s2.map[w] == s2.order[k]);
                    }
                }
                assert forall|w: usize| #[trigger] s2.map.contains_key(w) implies s2.order.contains(s2.map[w]) by {
                    if w == v {
                        assert(s2.order[s2.order.len() - 1] == r);
                    } else {
                        assert(s1.map.contains_key(w));
                        assert(s1.order.contains(s1.map[w]));
                        let k = choose|k: int| 0 <= k < s1.order.len() && s1.order[k] == s1.map[w];
                        assert(s2.order[k] == s2.map[w]);
                    }
                }
            },
        }
    }
}


/// Freeing a register that holds a virtual register keeps the invariant.
pub proof fn lemma_free_reg(s: WState, r: usize)
    requires
        inv(s),
        r < num_regs(),
        is_mapped(s.map, r),
    ensures
        inv(free_reg_spec(s, r)),
{
    reveal(inv);
    let s1 = free_reg_spec(s, r);
    lemma_without(s.order, r);
    assert forall|v: usize| #[trigger] s1.map.contains_key(v)
        implies s1.map[v] < num_regs() && !s1.free.contains(s1.map[v]) by {
        assert(s.map.contains_key(v) && s.map[v] != r);
    }
    assert forall|r2: usize| r2 < num_regs() implies s1.free.contains(r2) || #[trigger] is_mapped(s1.map, r2) by {
        if r2 != r && !s.free.contains(r2) {
            assert(is_mapped(s.map, r2));
            let w = choose|w: usize| s.map.contains_key(w) && s.map[w] == r2;
            assert(s1.map.contains_key(w) && s1.map[w] == r2);
        }
    }
    assert forall|v1: usize, v2: usize|
        s1.map.contains_key(v1) && s1.map.contains_key(v2) && s1.map[v1] == s1.map[v2] implies v1 == v2 by {
        assert(s.map[v1] == s.map[v2]);
    }
    assert forall|k: int| 0 <= k < s1.order.len() implies #[trigger] is_mapped(s1.map, s1.order[k]) by {
        let x = s1.order[k];
        assert(without(s.order, r).contains(x));
        let j = choose|j: int| 0 <= j < s.order.len() && s.order[j] == x;
        assert(is_mapped(s.map, s.order[j]));
        let w = choose|w: usize| s.map.contains_key(w) && s.map[w] == x;
        assert(s1.map.contains_key(w) && s1.map[w] == x);
    }
    assert forall|v: usize| #[trigger] s1.map.contains_key(v) implies s1.order.contains(s1.map[v]) by {
        assert(s.map.contains_key(v));
        assert(s.order.contains(s.map[v]));
        assert(without(s.order, r).contains(s.map[v]));
    }
}

/// The state before any instruction satisfies the invariant and has its spill slots in order.
pub proof fn lemma_initial_inv()
    ensures
        inv(initial_state()),
        slots_ok(initial_state()),
{
    reveal(inv);
    let s = initial_state();
    assert forall|r: usize| r < num_regs() implies s.free.contains(r) || #[trigger] is_mapped(s.map, r) by {
        assert(s.free.contains(r));
    }
}

/// One instruction keeps the invariant.
pub proof fn lemma_step(s: WState, i: InstrView)
    requires
        inv(s),
    ensures
        step_spec(s, i) matches Some(s1) ==> inv(s1),
{
    reveal(step_spec);
    reveal(inv);
    match i {
        InstrView::LoadImm(dest, n) => {
            lemma_get_reg(s, dest as usize);
        },
        InstrView::Print(v) => {
            lemma_get_reg(s, v as usize);
            if let Some((s1, r)) = get_reg_spec(s, v as usize) {
                let s2 = emit(s1, "OUT"@ + " "@ + reg_name(r));
                assert(s2.map.contains_key(v as usize) && s2.map[v as usize] == r);
                lemma_free_reg(s2, r);
            }
        },
        InstrView::Drop(v) => {
            lemma_get_reg(s, v as usize);
            if let Some((s1, r)) = get_reg_spec(s, v as usize) {
                assert(s1.map.contains_key(v as usize) && s1.map[v as usize] == r);
                lemma_free_reg(s1, r);
            }
        },
        InstrView::Add { left, right, dest } | InstrView::Sub { left, right, dest }
        | InstrView::Mul { left, right, dest } | InstrView::Div { left, right, dest }
        | InstrView::Mod { left, right, dest } => {
            lemma_get_reg(s, dest as usize);
            if let Some((s1, d)) = get_reg_spec(s, dest as usize) {
                lemma_get_reg(s1, left as usize);
                if let Some((s2, l)) = get_reg_spec(s1, left as usize) {
                    lemma_get_reg(s2, right as usize);
                }
            }
        },
        InstrView::Cmp(a, b) | InstrView::Mov(a, b) => {
            lemma_get_reg(s, a as usize);
            if let Some((s1, d)) = get_reg_spec(s, a as usize) {
                lemma_get_reg(s1, b as usize);
            }
        },
        InstrView::Push(v) | InstrView::Pop(v) => {
            lemma_get_reg(s, v as usize);
        },
        _ => {},
    }
}

/// With no free register, the least recently used register holds a virtual register.
pub proof fn lemma_victim(s: WState)
    requires
        inv(s),
        lowest_free_from(s.free, 0) >= num_regs(),
    ensures
        s.order.len() > 0,
        is_mapped(s.map, s.order[0]),
{
    reveal(inv);
    lemma_lowest_free(s.free, 0);
    assert(!s.free.contains(0usize));
    assert(is_mapped(s.map, 0usize));
    let w = choose|v: usize| s.map.contains_key(v) && s.map[v] == 0usize;
    assert(s.order.contains(s.map[w]));
}


/// Emitting text keeps the invariant.
pub proof fn lemma_emit(s: WState, text: Seq<char>)
    requires
        inv(s),
    ensures
        inv(emit(s, text)),
{
    reveal(inv);
    let s1 = emit(s, text);
    assert forall|r: usize| r < num_regs() implies s1.free.contains(r) || #[trigger] is_mapped(s1.map, r) by {
        assert(s.free.contains(r) || is_mapped(s.map, r));
    }
    assert forall|k: int| 0 <= k < s1.order.len() implies #[trigger] is_mapped(s1.map, s1.order[k]) by {
        assert(is_mapped(s.map, s.order[k]));
    }
}

// ---------------------------------------------------------------------------
// Spill slots

/// Every spill slot in use is below the next one to hand out, and no two virtual registers
/// share one.
pub open spec fn slots_ok(s: WState) -> bool {
    &&& forall|v: usize| #[trigger] s.slots.contains_key(v) ==> s.slots[v] < s.next_slot
    &&& forall|v1: usize, v2: usize|
        #![trigger s.slots[v1], s.slots[v2]]
        s.slots.contains_key(v1) && s.slots.contains_key(v2) && s.slots[v1] == s.slots[v2] ==> v1 == v2
}

proof fn lemma_alloc_slots(s: WState)
    requires
        slots_ok(s),
    ensures
        alloc_spec(s) matches Some((s1, r)) ==> slots_ok(s1),
{
    let lf = lowest_free_from(s.free, 0);
    if lf >= num_regs() && s.order.len() > 0 {
        let vv = owner(s.map, s.order[0]);
        if !s.slots.contains_key(vv) && s.next_slot < u16::MAX {
            let s1 = alloc_spec(s).unwrap().0;
            assert(s1.slots == s.slots.insert(vv, s.next_slot));
            assert forall|v1: usize, v2: usize|
                s1.slots.contains_key(v1) && s1.slots.contains_key(v2) && s1.slots[v1] == s1.slots[v2] implies v1 == v2 by {
                if v1 != vv && v2 != vv {
                    assert(s.slots[v1] == s.slots[v2]);
                }
            }
        }
    }
}

proof fn lemma_get_reg_slots(s: WState, v: usize)
    requires
        slots_ok(s),
    ensures
        get_reg_spec(s, v) matches Some((s1, r)) ==> slots_ok(s1),
{
    lemma_alloc_slots(s);
}

proof fn lemma_free_reg_slots(s: WState, r: usize)
    requires
        slots_ok(s),
    ensures
        slots_ok(free_reg_spec(s, r)),
{
}

pub proof fn lemma_step_slots(s: WState, i: InstrView)
    requires
        slots_ok(s),
    ensures
        step_spec(s, i) matches Some(s1) ==> slots_ok(s1),
{
    reveal(step_spec);
    match i {
        InstrView::LoadImm(dest, n) => {
            lemma_get_reg_slots(s, dest as usize);
        },
        InstrView::Print(v) | InstrView::Drop(v) | InstrView::Push(v) | InstrView::Pop(v) => {
            lemma_get_reg_slots(s, v as usize);
            if let Some((s1, r)) = get_reg_spec(s, v as usize) {
                lemma_free_reg_slots(emit(s1, "OUT"@ + " "@ + reg_name(r)), r);
                lemma_free_reg_slots(s1, r);
            }
        },
        InstrView::Add { left, right, dest } | InstrView::Sub { left, right, dest }
        | InstrView::Mul { left, right, dest } | InstrView::Div { left, right, dest }
        | InstrView::Mod { left, right, dest } => {
            lemma_get_reg_slots(s, dest as usize);
            if let Some((s1, d)) = get_reg_spec(s, dest as usize) {
                lemma_get_reg_slots(s1, left as usize);
                if let Some((s2, l)) = get_reg_spec(s1, left as usize) {
                    lemma_get_reg_slots(s2, right as usize);
                }
            }
        },
        InstrView::Cmp(a, b) | InstrView::Mov(a, b) => {
            lemma_get_reg_slots(s, a as usize);
            if let Some((s1, d)) = get_reg_spec(s, a as usize) {
                lemma_get_reg_slots(s1, b as usize);
            }
        },
        _ => {},
    }
}

// ---------------------------------------------------------------------------
// The output only grows

proof fn lemma_prefix_append(a: Seq<char>, x: Seq<char>)
    ensures
        a.is_prefix_of(a + x),
{
    assert((a + x).subrange(0, a.len() as int) =~= a);
}

proof fn lemma_prefix_trans(a: Seq<char>, b: Seq<char>, c: Seq<char>)
    requires
        a.is_prefix_of(b),
        b.is_prefix_of(c),
    ensures
        a.is_prefix_of(c),
{
    assert(c.subrange(0, a.len() as int) =~= b.subrange(0, a.len() as int));
}

proof fn lemma_get_reg_out(s: WState, v: usize)
    ensures
        get_reg_spec(s, v) matches Some((s1, r)) ==> s.out.is_prefix_of(s1.out),
{
    lemma_prefix_append(s.out, seq![]);
    assert(s.out + seq![] =~= s.out);
    if !s.map.contains_key(v) {
        if let Some((s1, r)) = alloc_spec(s) {
            let victim = s.order[0];
            let vv = owner(s.map, victim);
            if lowest_free_from(s.free, 0) >= num_regs() {
                let slot = if s.slots.contains_key(vv) { s.slots[vv] } else { s.next_slot };
                lemma_prefix_append(s.out, spill_store_text(slot, victim));
            }
            if s.slots.contains_key(v) {
                lemma_prefix_append(s1.out, spill_load_text(s.slots[v], r));
                lemma_prefix_trans(s.out, s1.out, s1.out + spill_load_text(s.slots[v], r));
            }
        }
    }
}

/// One instruction only appends to the output.
pub proof fn lemma_step_out(s: WState, i: InstrView)
    ensures
        step_spec(s, i) matches Some(s1) ==> s.out.is_prefix_of(s1.out),
{
    reveal(step_spec);
    match i {
        InstrView::LoadImm(dest, n) => {
            lemma_get_reg_out(s, dest as usize);
            if let Some((s1, d)) = get_reg_spec(s, dest as usize) {
                let t = "LD "@ + reg_name(d) + ", "@ + decimal(n as nat);
                lemma_prefix_append(s1.out, line(t));
                lemma_prefix_trans(s.out, s1.out, s1.out + line(t));
            }
        },
        InstrView::Print(v) => {
            lemma_get_reg_out(s, v as usize);
            if let Some((s1, r)) = get_reg_spec(s, v as usize) {
                let t = "OUT"@ + " "@ + reg_name(r);
                lemma_prefix_append(s1.out, line(t));
                lemma_prefix_trans(s.out, s1.out, s1.out + line(t));
            }
        },
        InstrView::Drop(v) => {
            lemma_get_reg_out(s, v as usize);
        },
        InstrView::Push(v) | InstrView::Pop(v) => {
            lemma_get_reg_out(s, v as usize);
            if let Some((s1, r)) = get_reg_spec(s, v as usize) {
                let m: Seq<char> = if i is Push { "PUSH"@ } else { "POP"@ };
                let t = m + " "@ + reg_name(r);
                lemma_prefix_append(s1.out, line(t));
                lemma_prefix_trans(s.out, s1.out, s1.out + line(t));
            }
        },
        InstrView::Add { left, right, dest } | InstrView::Sub { left, right, dest }
        | InstrView::Mul { left, right, dest } | InstrView::Div { left, right, dest }
        | InstrView::Mod { left, right, dest } => {
            let m: Seq<char> = match i {
                InstrView::Add { .. } => "ADD"@,
                InstrView::Sub { .. } => "SUB"@,
                InstrView::Mul { .. } => "MUL"@,
                InstrView::Div { .. } => "DIV"@,
                _ => "MOD"@,
            };
            lemma_get_reg_out(s, dest as usize);
            if let Some((s1, d)) = get_reg_spec(s, dest as usize) {
                lemma_get_reg_out(s1, left as usize);
                if let Some((s2, l)) = get_reg_spec(s1, left as usize) {
                    lemma_get_reg_out(s2, right as usize);
                    if let Some((s3, r)) = get_reg_spec(s2, right as usize) {
                        let t1 = line("LD "@ + reg_name(d) + ", "@ + reg_name(l));
                        let t2 = line(m + " "@ + reg_name(d) + ", "@ + reg_name(r));
                        lemma_prefix_trans(s.out, s1.out, s2.out);
                        lemma_prefix_trans(s.out, s2.out, s3.out);
                        lemma_prefix_append(s3.out, t1);
                        lemma_prefix_append(s3.out + t1, t2);
                        lemma_prefix_trans(s.out, s3.out, s3.out + t1);
                        lemma_prefix_trans(s.out, s3.out + t1, s3.out + t1 + t2);
                    }
                }
            }
        },
        InstrView::Cmp(a, b) | InstrView::Mov(a, b) => {
            lemma_get_reg_out(s, a as usize);
            if let Some((s1, x)) = get_reg_spec(s, a as usize) {
                lemma_get_reg_out(s1, b as usize);
                if let Some((s2, y)) = get_reg_spec(s1, b as usize) {
                    let t = if i is Cmp {
                        "CMP"@ + " "@ + reg_name(x) + ", "@ + reg_name(y)
                    } else {
                        "LD"@ + " "@ + reg_name(x) + ", "@ + reg_name(y)
                    };
                    lemma_prefix_trans(s.out, s1.out, s2.out);
                    lemma_prefix_append(s2.out, line(t));
                    lemma_prefix_trans(s.out, s2.out, s2.out + line(t));
                }
            }
        },
        InstrView::Label(name) => {
            lemma_prefix_append(s.out, line("\n"@ + name + ":"@));
        },
        InstrView::Jmp(name) => {
            lemma_prefix_append(s.out, line("JMP"@ + " "@ + name));
        },
        InstrView::Jeq(name) => {
            lemma_prefix_append(s.out, line("JEQ"@ + " "@ + name));
        },
        InstrView::Jne(name) => {
            lemma_prefix_append(s.out, line("JNE"@ + " "@ + name));
        },
    }
}

/// Law: translating one instruction, from a state with the register-file invariant and its
/// spill slots in order, keeps both, and only appends to the assembly written so far. So
/// `r0`..`r6` stay split between free registers and registers each holding one virtual
/// register, `r7` (the spill base) is never handed out, and no two virtual registers share a
/// spill slot.
pub proof fn law_writer_step(s: WState, i: InstrView)
    requires
        inv(s),
        slots_ok(s),
    ensures
        step_spec(s, i) matches Some(s1) ==> inv(s1) && slots_ok(s1) && s.out.is_prefix_of(s1.out),
{
    lemma_step(s, i);
    lemma_step_slots(s, i);
    lemma_step_out(s, i);
}

/// Law: translating the instructions from `i` on keeps the register-file invariant and the
/// spill slots in order, and only appends to the assembly written so far.
pub proof fn law_writer_run(s: WState, instrs: Seq<InstrView>, i: int)
    requires
        inv(s),
        slots_ok(s),
    ensures
        run_from(s, instrs, i) matches Some(s1) ==> inv(s1) && slots_ok(s1) && s.out.is_prefix_of(s1.out),
    decreases instrs.len() - i,
{
    if 0 <= i < instrs.len() {
        law_writer_step(s, instrs[i]);
        if let Some(s1) = step_spec(s, instrs[i]) {
            law_writer_run(s1, instrs, i + 1);
            if let Some(s2) = run_from(s1, instrs, i + 1) {
                lemma_prefix_trans(s.out, s1.out, s2.out);
            }
        }
    } else {
        assert(s.out.subrange(0, s.out.len() as int) =~= s.out);
    }
}

} // verus!
