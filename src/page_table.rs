//! The three-level Sv39 page table, stored in page frames of physical memory.
use vstd::prelude::*;
use crate::addr::{ppn_of, vpn_of, page_index, page_round_down, page_round_up, offset_of, round_down, round_up, PhysicalAddr, VirtualAddr, VirtualPageNumber, MAX_PHYSICAL_ADDR, MAX_VIRTUAL_ADDR, PAGE_SIZE};
use crate::entry::{entry_perm, entry_ppn, kind_of, leaf_perm, EntryKind, PTEPermission, PageTableEntry};
use crate::kalloc::{Exhausted, PhysicalMemory, StaticPageAllocator};

verus! {

/// Entries in one table: one page of 64-bit words.
pub const ENTRY_COUNT: u64 = 512;

/// The walk for an address met an entry that is not valid, or found no leaf.
#[derive(Debug, PartialEq, Eq, Structural, Clone, Copy)]
pub struct TranslationFault;

/// Address of entry `idx` of the table at `table`.
pub open spec fn slot(table: int, idx: int) -> int {
    table + 8 * idx
}

/// The table that entry `idx` of `table` refers to, when it is a branch.
pub open spec fn child_of(mem: PhysicalMemory, table: int, idx: int) -> int {
    entry_ppn(mem.word(slot(table, idx))) * 4096
}

/// The leaf entry met by the walk from `root` for the page with number `page`,
/// if the walk reaches one.
#[verifier::opaque]
pub open spec fn walk_page(mem: PhysicalMemory, root: int, page: int) -> Option<u64> {
    let e2 = mem.word(slot(root, page_index(page, 2)));
    match kind_of(e2) {
        EntryKind::NotValid => None,
        EntryKind::Leaf => Some(e2),
        EntryKind::Branch(c1) => {
            let e1 = mem.word(slot(c1.0 as int, page_index(page, 1)));
            match kind_of(e1) {
                EntryKind::NotValid => None,
                EntryKind::Leaf => Some(e1),
                EntryKind::Branch(c0) => {
                    let e0 = mem.word(slot(c0.0 as int, page_index(page, 0)));
                    if kind_of(e0) == EntryKind::Leaf {
                        Some(e0)
                    } else {
                        None
                    }
                },
            }
        },
    }
}

/// What `va` translates to: the leaf's frame with the page offset of `va`, and
/// the leaf's permission byte.
pub open spec fn translate_spec(mem: PhysicalMemory, root: int, va: u64) -> Option<(u64, u8)> {
    match walk_page(mem, root, va as int / 4096) {
        Some(e) => Some(((entry_ppn(e) * 4096 + offset_of(va)) as u64, entry_perm(e) as u8)),
        None => None,
    }
}

/// The leaf entry that maps a page to frame `ppn` with `perm` (and the valid bit).
pub open spec fn leaf_word(perm: u8, ppn: int) -> u64 {
    ((perm | 1u8) as int + ppn * 1024) as u64
}

/// Pages `page .. page + n` map to frames `ppn .. ppn + n` with `perm`.
pub open spec fn maps_range(mem: PhysicalMemory, root: int, page: int, ppn: int, n: int, perm: u8) -> bool {
    forall|j: int| 0 <= j < n ==> #[trigger] walk_page(mem, root, page + j) == Some(leaf_word(perm, ppn + j))
}

/// Whether `q` is the number of a page of the virtual address space.
pub open spec fn is_page(q: int) -> bool {
    0 <= q < 0x800_0000
}

/// The table one level below the root on the walk for page `p`.
pub open spec fn level1_table(mem: PhysicalMemory, root: int, p: int) -> int {
    child_of(mem, root, page_index(p, 2))
}

/// The innermost table on the walk for page `p`.
pub open spec fn level0_table(mem: PhysicalMemory, root: int, p: int) -> int {
    child_of(mem, level1_table(mem, root, p), page_index(p, 1))
}

/// An entry of a table above the innermost level: not valid, or a branch to
/// the table one level further down the same index path.
pub open spec fn upper_ok(mem: PhysicalMemory, tables: Map<u64, Seq<int>>, t: u64, i: int) -> bool {
    match kind_of(mem.word(slot(t as int, i))) {
        EntryKind::NotValid => true,
        EntryKind::Leaf => false,
        EntryKind::Branch(c) => tables.contains_key(c.0) && tables[c.0] == tables[t].push(i),
    }
}

/// Every entry of the tables in `tables` is the same in `m1` and `m2`, but the one at `s`.
pub open spec fn tables_same_except(m1: PhysicalMemory, m2: PhysicalMemory, tables: Map<u64, Seq<int>>, s: int) -> bool {
    forall|t: u64, i: int|
        tables.contains_key(t) && 0 <= i < 512 && slot(t as int, i) != s ==> #[trigger] m2.word(
            slot(t as int, i),
        ) == m1.word(slot(t as int, i))
}

/// The tables reachable from `root` form a tree: each is labelled with the
/// index path that leads to it, and above the innermost level every entry is
/// either not valid or a branch to the table one index further down.
pub open spec fn tree_ok(mem: PhysicalMemory, tables: Map<u64, Seq<int>>, root: u64) -> bool {
    &&& tables.contains_key(root)
    &&& tables[root].len() == 0
    &&& forall|t: u64| #[trigger] tables.contains_key(t) ==> t % 4096 == 0 && tables[t].len() <= 2
    &&& forall|t: u64, i: int|
        tables.contains_key(t) && tables[t].len() < 2 && 0 <= i < 512 ==> #[trigger] upper_ok(
            mem,
            tables,
            t,
            i,
        )
}

/// The frames taken from the head of `old_free` (what `new_free` lacks) all
/// became tables.
pub open spec fn taken_are_tables(old_free: Seq<u64>, new_free: Seq<u64>, tables: Map<u64, Seq<int>>) -> bool {
    forall|i: int| 0 <= i < old_free.len() - new_free.len() ==> #[trigger] tables.contains_key(old_free[i])
}

/// Every table of `t1` is in `t2`, with the same index path.
pub open spec fn tables_grow(t1: Map<u64, Seq<int>>, t2: Map<u64, Seq<int>>) -> bool {
    forall|t: u64| #[trigger] t1.contains_key(t) ==> t2.contains_key(t) && t2[t] == t1[t]
}

proof fn lemma_taken_compose(f0: Seq<u64>, f1: Seq<u64>, f2: Seq<u64>, t0: Map<u64, Seq<int>>, t1: Map<u64, Seq<int>>, t2: Map<u64, Seq<int>>)
    requires
        is_suffix(f0, f1),
        is_suffix(f1, f2),
        taken_are_tables(f0, f1, t1),
        taken_are_tables(f1, f2, t2),
        tables_grow(t0, t1),
        tables_grow(t1, t2),
    ensures
        is_suffix(f0, f2),
        taken_are_tables(f0, f2, t2),
        tables_grow(t0, t2),
{
    let k1 = f0.len() - f1.len();
    assert forall|i: int| 0 <= i < f0.len() - f2.len() implies #[trigger] t2.contains_key(f0[i]) by {
        if i < k1 {
            assert(t1.contains_key(f0[i]));
        } else {
            assert(f0[i] == f1[i - k1]);
            assert(t2.contains_key(f1[i - k1]));
        }
    }
    assert(f2 =~= f0.subrange(f0.len() - f2.len(), f0.len() as int)) by {
        assert forall|j: int| 0 <= j < f2.len() implies f2[j] == f0[f0.len() - f2.len() + j] by {
            assert(f2[j] == f1[f1.len() - f2.len() + j]);
            assert(f1[f1.len() - f2.len() + j] == f0[k1 + f1.len() - f2.len() + j]);
        }
    }
}

proof fn lemma_taken_none(f: Seq<u64>, t: Map<u64, Seq<int>>)
    ensures
        is_suffix(f, f),
        taken_are_tables(f, f, t),
        tables_grow(t, t),
{
    assert(f =~= f.subrange(0, f.len() as int));
}

/// The start of the page frame that holds address `a`.
pub open spec fn frame_of(a: int) -> int {
    a - a % 4096
}

/// Every table of `new_tables` was a table already or a frame of `old_free`.
pub open spec fn tables_from(old_tables: Map<u64, Seq<int>>, old_free: Seq<u64>, new_tables: Map<u64, Seq<int>>) -> bool {
    forall|t: u64| #[trigger] new_tables.contains_key(t) ==> old_tables.contains_key(t) || old_free.contains(t)
}

/// Only words in frames of `tables` differ between `m0` and `m1`.
pub open spec fn writes_only_tables(m0: PhysicalMemory, m1: PhysicalMemory, tables: Map<u64, Seq<int>>) -> bool {
    &&& m1.base == m0.base
    &&& m1.words@.len() == m0.words@.len()
    &&& forall|a: int|
        m0.has_word(a) && !tables.contains_key(frame_of(a) as u64) ==> #[trigger] m1.word(a) == m0.word(a)
}

/// Every entry of the tables in `new_tables` but not in `old_tables` is zero
/// in `m`, but the one at `s`.
pub open spec fn new_tables_zero(m: PhysicalMemory, old_tables: Map<u64, Seq<int>>, new_tables: Map<u64, Seq<int>>, s: int) -> bool {
    forall|t: u64, i: int|
        new_tables.contains_key(t) && !old_tables.contains_key(t) && 0 <= i < 512 && slot(t as int, i) != s
            ==> #[trigger] m.word(slot(t as int, i)) == 0
}

/// The two tables above the innermost level exist on the walk for page `p`.
pub open spec fn tables_present(m: PhysicalMemory, root: int, p: int) -> bool {
    &&& kind_of(m.word(slot(root, page_index(p, 2)))) is Branch
    &&& kind_of(m.word(slot(level1_table(m, root, p), page_index(p, 1)))) is Branch
}

proof fn lemma_frame_of_slot(t: int, i: int)
    requires
        t % 4096 == 0,
        0 <= i < 512,
    ensures
        frame_of(slot(t, i)) == t,
{
    vstd::arithmetic::div_mod::lemma_fundamental_div_mod(t, 4096);
    let x = t / 4096;
    assert(slot(t, i) == 4096 * x + 8 * i);
    vstd::arithmetic::div_mod::lemma_fundamental_div_mod_converse(slot(t, i), 4096, x, 8 * i);
}

proof fn lemma_frame_of_in(a: int, c: int)
    requires
        c % 4096 == 0,
        c <= a < c + 4096,
    ensures
        frame_of(a) == c,
{
    vstd::arithmetic::div_mod::lemma_fundamental_div_mod(c, 4096);
    vstd::arithmetic::div_mod::lemma_fundamental_div_mod_converse(a, 4096, c / 4096, a - c);
}

pub proof fn lemma_suffix_contains(a: Seq<u64>, b: Seq<u64>, x: u64)
    requires
        is_suffix(a, b),
        b.contains(x),
    ensures
        a.contains(x),
{
    let j = choose|j: int| 0 <= j < b.len() && b[j] == x;
    assert(a[a.len() - b.len() + j] == x);
}

/// Every entry of the tables in `tables` is the same in `m0` and `m1`, but
/// the ones at `s1` and `s2`.
pub open spec fn tables_same_except2(m0: PhysicalMemory, m1: PhysicalMemory, tables: Map<u64, Seq<int>>, s1: int, s2: int) -> bool {
    forall|t: u64, i: int|
        tables.contains_key(t) && 0 <= i < 512 && slot(t as int, i) != s1 && slot(t as int, i) != s2
            ==> #[trigger] m1.word(slot(t as int, i)) == m0.word(slot(t as int, i))
}

/// Two successive steps that each draw tables from the free list and write
/// only in tables compose into one such step.
proof fn lemma_step_compose(
    fa0: StaticPageAllocator,
    fa1: StaticPageAllocator,
    fa2: StaticPageAllocator,
    t0: Map<u64, Seq<int>>,
    t1: Map<u64, Seq<int>>,
    t2: Map<u64, Seq<int>>,
)
    requires
        is_suffix(fa0.free@, fa1.free@),
        tables_from(t0, fa0.free@, t1),
        tables_from(t1, fa1.free@, t2),
        writes_only_tables(fa0.mem, fa1.mem, t1),
        writes_only_tables(fa1.mem, fa2.mem, t2),
        tables_grow(t1, t2),
    ensures
        tables_from(t0, fa0.free@, t2),
        writes_only_tables(fa0.mem, fa2.mem, t2),
{
    assert forall|t: u64| #[trigger] t2.contains_key(t) implies t0.contains_key(t) || fa0.free@.contains(t) by {
        if !t1.contains_key(t) {
            lemma_suffix_contains(fa0.free@, fa1.free@, t);
        }
    }
    assert forall|a: int| fa0.mem.has_word(a) && !t2.contains_key(frame_of(a) as u64) implies #[trigger] fa2.mem.word(a)
        == fa0.mem.word(a) by {
        assert(fa1.mem.word(a) == fa0.mem.word(a));
        assert(fa1.mem.has_word(a));
    }
}

pub proof fn lemma_suffix_trans(a: Seq<u64>, b: Seq<u64>, c: Seq<u64>)
    requires
        is_suffix(a, b),
        is_suffix(b, c),
    ensures
        is_suffix(a, c),
        b.len() == a.len() - 1 && b == a.drop_first() ==> is_suffix(a.drop_first(), c),
{
    assert(c =~= a.subrange(a.len() - c.len(), a.len() as int)) by {
        assert forall|j: int| 0 <= j < c.len() implies c[j] == a[a.len() - c.len() + j] by {
            assert(c[j] == b[b.len() - c.len() + j]);
            assert(b[b.len() - c.len() + j] == a[a.len() - b.len() + b.len() - c.len() + j]);
        }
    }
}

/// `b` is what is left of `a` after some items were taken from its head.
pub open spec fn is_suffix(a: Seq<u64>, b: Seq<u64>) -> bool {
    b.len() <= a.len() && b == a.subrange(a.len() - b.len(), a.len() as int)
}

proof fn lemma_slot_distinct(a: int, b: int, i: int, j: int)
    requires
        a % 4096 == 0,
        b % 4096 == 0,
        0 <= i < 512,
        0 <= j < 512,
        slot(a, i) == slot(b, j),
    ensures
        a == b,
        i == j,
{
    vstd::arithmetic::div_mod::lemma_fundamental_div_mod(a, 4096);
    vstd::arithmetic::div_mod::lemma_fundamental_div_mod(b, 4096);
    let x = a / 4096;
    let y = b / 4096;
    assert(4096 * x + 8 * i == 4096 * y + 8 * j);
    if x > y {
        assert(4096 * x >= 4096 * y + 4096) by (nonlinear_arith)
            requires
                x > y,
        ;
    } else if x < y {
        assert(4096 * y >= 4096 * x + 4096) by (nonlinear_arith)
            requires
                x < y,
        ;
    }
}

proof fn lemma_slot_outside_frame(t: int, i: int, c: int)
    requires
        t % 4096 == 0,
        c % 4096 == 0,
        t != c,
        0 <= i < 512,
    ensures
        !(c <= slot(t, i) < c + 4096),
{
    if c <= slot(t, i) < c + 4096 {
        vstd::arithmetic::div_mod::lemma_fundamental_div_mod(slot(t, i) - c, 8);
        vstd::arithmetic::div_mod::lemma_fundamental_div_mod(t, 8);
        vstd::arithmetic::div_mod::lemma_fundamental_div_mod(c, 8);
        assert(t % 8 == 0) by {
            vstd::arithmetic::div_mod::lemma_fundamental_div_mod(t, 4096);
        }
        assert(c % 8 == 0) by {
            vstd::arithmetic::div_mod::lemma_fundamental_div_mod(c, 4096);
        }
        let j = (slot(t, i) - c) / 8;
        assert(slot(c, j) == slot(t, i));
        lemma_slot_distinct(t, c, i, j);
    }
}

proof fn lemma_index_distinct(mem: PhysicalMemory, a: int, b: int)
    requires
        mem.has_word(a),
        mem.has_word(b),
        a != b,
    ensures
        mem.index_of(a) != mem.index_of(b),
{
    vstd::arithmetic::div_mod::lemma_fundamental_div_mod(a - mem.base, 8);
    vstd::arithmetic::div_mod::lemma_fundamental_div_mod(b - mem.base, 8);
}

proof fn lemma_page_eq(p: int, q: int)
    requires
        0 <= p,
        0 <= q,
        p / 512 / 512 < 512,
        q / 512 / 512 < 512,
        page_index(p, 0) == page_index(q, 0),
        page_index(p, 1) == page_index(q, 1),
        page_index(p, 2) == page_index(q, 2),
    ensures
        p == q,
{
    vstd::arithmetic::div_mod::lemma_fundamental_div_mod(p, 512);
    vstd::arithmetic::div_mod::lemma_fundamental_div_mod(q, 512);
    vstd::arithmetic::div_mod::lemma_fundamental_div_mod(p / 512, 512);
    vstd::arithmetic::div_mod::lemma_fundamental_div_mod(q / 512, 512);
}

/// Turning a not-valid entry into a branch to an all-zero table changes no walk.
proof fn lemma_install_keeps_walks(
    m1: PhysicalMemory,
    m2: PhysicalMemory,
    tables: Map<u64, Seq<int>>,
    root: u64,
    s: int,
    c: u64,
    q: int,
)
    requires
        tree_ok(m1, tables, root),
        tables_same_except(m1, m2, tables, s),
        kind_of(m1.word(s)) == EntryKind::NotValid,
        kind_of(m2.word(s)) == EntryKind::Branch(PhysicalAddr(c)),
        forall|i: int| 0 <= i < 512 ==> #[trigger] m2.word(slot(c as int, i)) == 0,
    ensures
        walk_page(m2, root as int, q) == walk_page(m1, root as int, q),
{
    reveal(walk_page);
    lemma_zero_not_valid();
    let i2 = page_index(q, 2);
    let i1 = page_index(q, 1);
    let i0 = page_index(q, 0);
    let s2 = slot(root as int, i2);
    assert(upper_ok(m1, tables, root, i2));
    if s2 == s {
        assert(m2.word(slot(c as int, i1)) == 0);
    } else {
        assert(m2.word(s2) == m1.word(s2));
        if let EntryKind::Branch(c1) = kind_of(m1.word(s2)) {
            let s1 = slot(c1.0 as int, i1);
            assert(tables.contains_key(c1.0));
            assert(upper_ok(m1, tables, c1.0, i1));
            if s1 == s {
                assert(m2.word(slot(c as int, i0)) == 0);
            } else {
                assert(m2.word(s1) == m1.word(s1));
                if let EntryKind::Branch(c0) = kind_of(m1.word(s1)) {
                    let s0 = slot(c0.0 as int, i0);
                    assert(tables.contains_key(c0.0));
                    if s0 != s {
                        assert(m2.word(s0) == m1.word(s0));
                    }
                }
            }
        }
    }
}

/// Rewriting the innermost entry of one page's walk changes no other page's walk.
proof fn lemma_leaf_write_keeps_walks(
    m1: PhysicalMemory,
    m2: PhysicalMemory,
    tables: Map<u64, Seq<int>>,
    root: u64,
    c0: u64,
    p: int,
    q: int,
)
    requires
        tree_ok(m1, tables, root),
        tables.contains_key(c0),
        tables[c0] == seq![page_index(p, 2), page_index(p, 1)],
        tables_same_except(m1, m2, tables, slot(c0 as int, page_index(p, 0))),
        0 <= p,
        0 <= q,
        p / 512 / 512 < 512,
        q / 512 / 512 < 512,
        p != q,
    ensures
        walk_page(m2, root as int, q) == walk_page(m1, root as int, q),
{
    reveal(walk_page);
    let s = slot(c0 as int, page_index(p, 0));
    let i2 = page_index(q, 2);
    let i1 = page_index(q, 1);
    let i0 = page_index(q, 0);
    let s2 = slot(root as int, i2);
    assert(upper_ok(m1, tables, root, i2));
    if s2 == s {
        lemma_slot_distinct(root as int, c0 as int, i2, page_index(p, 0));
    }
    assert(m2.word(s2) == m1.word(s2));
    if let EntryKind::Branch(c1) = kind_of(m1.word(s2)) {
        let s1 = slot(c1.0 as int, i1);
        assert(tables.contains_key(c1.0));
        assert(upper_ok(m1, tables, c1.0, i1));
        if s1 == s {
            lemma_slot_distinct(c1.0 as int, c0 as int, i1, page_index(p, 0));
        }
        assert(m2.word(s1) == m1.word(s1));
        if let EntryKind::Branch(c0q) = kind_of(m1.word(s1)) {
            let s0 = slot(c0q.0 as int, i0);
            assert(tables.contains_key(c0q.0));
            if s0 == s {
                lemma_slot_distinct(c0q.0 as int, c0 as int, i0, page_index(p, 0));
                assert(tables[c0q.0][0] == i2 && tables[c0q.0][1] == i1);
                lemma_page_eq(p, q);
            }
            assert(m2.word(s0) == m1.word(s0));
        }
    }
}

/// Taking a fresh frame from the free list for a table and installing it as a
/// branch at a not-valid entry keeps the tree well formed and changes no walk.
#[verifier::spinoff_prover]
#[verifier::rlimit(60)]
proof fn lemma_install(
    fa0: StaticPageAllocator,
    fa1: StaticPageAllocator,
    fa2: StaticPageAllocator,
    tables: Map<u64, Seq<int>>,
    root: u64,
    table: u64,
    idx: int,
    c: u64,
    b: u64,
)
    requires
        fa0.wf(),
        tree_ok(fa0.mem, tables, root),
        forall|t: u64| #[trigger] tables.contains_key(t) ==> fa0.is_frame(t as int) && !fa0.free@.contains(t),
        tables.contains_key(table),
        tables[table].len() < 2,
        0 <= idx < 512,
        kind_of(fa0.mem.word(slot(table as int, idx))) == EntryKind::NotValid,
        fa0.free@.len() > 0,
        c == fa0.free@[0],
        fa1.wf(),
        fa1.start == fa0.start,
        fa1.end == fa0.end,
        fa1.mem.base == fa0.mem.base,
        fa1.mem.words@.len() == fa0.mem.words@.len(),
        fa1.free@ == fa0.free@.drop_first(),
        fa1.frame_is_zero(c as int),
        forall|a: int| fa0.mem.has_word(a) && !(c <= a < c + 4096) ==> #[trigger] fa1.mem.word(a) == fa0.mem.word(a),
        b % 256 == 1,
        entry_ppn(b) == c / 4096,
        fa2.start == fa1.start,
        fa2.end == fa1.end,
        fa2.free == fa1.free,
        fa2.mem.base == fa1.mem.base,
        fa2.mem.words@ == fa1.mem.words@.update(fa1.mem.index_of(slot(table as int, idx)), b),
    ensures
        ({
            let nt = tables.insert(c, tables[table].push(idx));
            &&& fa2.wf()
            &&& tree_ok(fa2.mem, nt, root)
            &&& forall|t: u64| #[trigger] nt.contains_key(t) ==> fa2.is_frame(t as int) && !fa2.free@.contains(t)
            &&& tables_same_except(fa0.mem, fa2.mem, tables, slot(table as int, idx))
            &&& forall|q: int| #[trigger] walk_page(fa2.mem, root as int, q) == walk_page(fa0.mem, root as int, q)
            &&& kind_of(fa2.mem.word(slot(table as int, idx))) == EntryKind::Branch(PhysicalAddr(c))
            &&& !tables.contains_key(c)
            &&& forall|i: int| 0 <= i < 512 ==> #[trigger] fa2.mem.word(slot(c as int, i)) == 0
            &&& writes_only_tables(fa0.mem, fa2.mem, nt)
        }),
{
    let s = slot(table as int, idx);
    let m0 = fa0.mem;
    let m1 = fa1.mem;
    let m2 = fa2.mem;
    let nt = tables.insert(c, tables[table].push(idx));
    assert(fa0.is_frame(c as int));
    assert(fa0.is_frame(table as int));
    assert(!tables.contains_key(c)) by {
        if tables.contains_key(c) {
            assert(fa0.free@[0] == c);
        }
    }
    assert(kind_of(b) == EntryKind::Branch(PhysicalAddr(c))) by {
        assert(b % 256 == 1 ==> (b >> 0u64) & 1u64 == 1u64 && (b >> 1u64) & 1u64 == 0u64 && (b >> 2u64)
            & 1u64 == 0u64 && (b >> 3u64) & 1u64 == 0u64) by (bit_vector);
        vstd::arithmetic::div_mod::lemma_fundamental_div_mod(c as int, 4096);
    }
    lemma_zero_not_valid();
    assert(m2.word(s) == b);
    assert forall|i: int| 0 <= i < 512 implies #[trigger] m2.word(slot(c as int, i)) == 0 by {
        if slot(c as int, i) == s {
            lemma_slot_distinct(c as int, table as int, i, idx);
        }
        lemma_frame_has_word(fa0, c as int, i);
        lemma_frame_has_word(fa0, table as int, idx);
        lemma_index_distinct(m1, slot(c as int, i), s);
        assert(m1.word(c + 8 * i) == 0);
    }
    assert forall|t: u64, i: int|
        tables.contains_key(t) && 0 <= i < 512 && slot(t as int, i) != s implies #[trigger] m2.word(
        slot(t as int, i),
    ) == m0.word(slot(t as int, i)) by {
        assert(fa0.is_frame(t as int));
        lemma_frame_has_word(fa0, t as int, i);
        lemma_frame_has_word(fa0, table as int, idx);
        lemma_slot_outside_frame(t as int, i, c as int);
        assert(m1.word(slot(t as int, i)) == m0.word(slot(t as int, i)));
        lemma_index_distinct(m1, slot(t as int, i), s);
    }
    assert forall|t: u64, i: int| nt.contains_key(t) && nt[t].len() < 2 && 0 <= i < 512 implies #[trigger] upper_ok(
        m2,
        nt,
        t,
        i,
    ) by {
        if t == c {
            assert(m2.word(slot(c as int, i)) == 0);
        } else if slot(t as int, i) == s {
            assert(fa0.is_frame(t as int));
            lemma_slot_distinct(t as int, table as int, i, idx);
        } else {
            assert(m2.word(slot(t as int, i)) == m0.word(slot(t as int, i)));
            assert(upper_ok(m0, tables, t, i));
        }
    }
    assert forall|t: u64| #[trigger] nt.contains_key(t) implies fa2.is_frame(t as int) && !fa2.free@.contains(t) by {
        if fa2.free@.contains(t) {
            let j = choose|j: int| 0 <= j < fa2.free@.len() && fa2.free@[j] == t;
            assert(fa0.free@[j + 1] == t);
            if t == c {
                assert(fa0.free@[j + 1] == fa0.free@[0]);
            }
        }
    }
    assert forall|q: int| #[trigger] walk_page(m2, root as int, q) == walk_page(m0, root as int, q) by {
        lemma_install_keeps_walks(m0, m2, tables, root, s, c, q);
    }
    assert forall|a: int| m0.has_word(a) && !nt.contains_key(frame_of(a) as u64) implies #[trigger] m2.word(a) == m0.word(a) by {
        if c <= a < c + 4096 {
            lemma_frame_of_in(a, c as int);
            assert(nt.contains_key(c));
        }
        assert(m1.word(a) == m0.word(a));
        lemma_frame_of_slot(table as int, idx);
        assert(nt.contains_key(table));
        assert(a != s);
        lemma_frame_has_word(fa0, table as int, idx);
        assert(m1.has_word(a));
        lemma_index_distinct(m1, a, s);
    }
}

proof fn lemma_frame_has_word(fa: StaticPageAllocator, t: int, i: int)
    requires
        fa.wf(),
        fa.is_frame(t),
        0 <= i < 512,
    ensures
        fa.mem.has_word(slot(t, i)),
{
    vstd::arithmetic::div_mod::lemma_fundamental_div_mod(t, 4096);
    vstd::arithmetic::div_mod::lemma_fundamental_div_mod(fa.start as int, 4096);
    let x = t / 4096;
    let y = fa.start / 4096;
    assert(slot(t, i) - fa.mem.base == 8 * (512 * (x - y) + i)) by (nonlinear_arith)
        requires
            t == 4096 * x,
            fa.mem.base == 4096 * y,
    ;
    vstd::arithmetic::div_mod::lemma_mod_multiples_basic(512 * (x - y) + i, 8);
}

proof fn lemma_leaf_word(perm: u8, n: u64)
    requires
        leaf_perm(perm),
        n < 0x1000_0000_0000,
    ensures
        kind_of(leaf_word(perm, n as int)) == EntryKind::Leaf,
        entry_ppn(leaf_word(perm, n as int)) == n,
        entry_perm(leaf_word(perm, n as int)) == (perm | 1u8),
{
    let x = (perm | 1u8) as u64;
    assert(x < 256) by (bit_vector)
        requires
            x == (perm | 1u8) as u64,
    ;
    let w = leaf_word(perm, n as int);
    assert(w == x + n * 1024);
    assert(x == (perm | 1u8) as u64 && n < 0x1000_0000_0000 && w == x + n * 1024 ==> (w >> 0u64) & 1u64
        == 1u64 && (w >> 1u64) & 1u64 == ((perm as u64) >> 1u64) & 1u64 && (w >> 2u64) & 1u64 == ((
    perm as u64) >> 2u64) & 1u64 && (w >> 3u64) & 1u64 == ((perm as u64) >> 3u64) & 1u64 && (w / 1024)
        % 0x1000_0000_0000 == n && w % 256 == x) by (bit_vector);
}

proof fn lemma_zero_not_valid()
    ensures
        kind_of(0) == EntryKind::NotValid,
{
    assert((0u64 >> 0u64) & 1u64 != 1u64) by (bit_vector);
}

/// A page table: the frame of its root table, and, for proofs, the index path
/// of every table frame it owns.
pub struct PageTable {
    pub root: u64,
    pub tables: Ghost<Map<u64, Seq<int>>>,
}

impl PageTable {
    /// The table is a tree of frames of `fa`'s memory that `fa` does not count as free.
    pub open spec fn wf(&self, fa: &StaticPageAllocator) -> bool {
        &&& fa.wf()
        &&& tree_ok(fa.mem, self.tables@, self.root)
        &&& forall|t: u64|
            #[trigger] self.tables@.contains_key(t) ==> fa.is_frame(t as int) && !fa.free@.contains(t)
    }

    /// What `va` translates to under this table.
    pub open spec fn translation(&self, fa: &StaticPageAllocator, va: u64) -> Option<(u64, u8)> {
        translate_spec(fa.mem, self.root as int, va)
    }

    /// Builds an empty table in a fresh frame taken from `fa`.
    pub fn new(fa: &mut StaticPageAllocator) -> (r: Result<PageTable, Exhausted>)
        requires
            old(fa).wf(),
        ensures
            final(fa).wf(),
            final(fa).start == old(fa).start,
            final(fa).end == old(fa).end,
            old(fa).free@.len() == 0 <==> r is Err,
            r is Err ==> *final(fa) == *old(fa),
            r matches Ok(pt) ==> {
                &&& pt.wf(final(fa))
                &&& pt.root == old(fa).free@[0]
                &&& final(fa).free@ == old(fa).free@.drop_first()
                &&& forall|q: int| #[trigger] walk_page(final(fa).mem, pt.root as int, q) is None
                &&& final(fa).frame_is_zero(pt.root as int)
                &&& pt.tables@ == map![pt.root => Seq::<int>::empty()]
            },
    {
        let root = fa.kalloc()?;
        let pt = PageTable { root: root.0, tables: Ghost(Map::<u64, Seq<int>>::empty().insert(root.0, Seq::<int>::empty())) };
        proof {
            assert(pt.tables@ =~= map![pt.root => Seq::<int>::empty()]);
            lemma_zero_not_valid();
            assert forall|t: u64, i: int|
                pt.tables@.contains_key(t) && pt.tables@[t].len() < 2 && 0 <= i < 512 implies #[trigger] upper_ok(
                fa.mem,
                pt.tables@,
                t,
                i,
            ) by {
                assert(fa.mem.word(root.0 + 8 * i) == 0);
            }
            assert forall|q: int| #[trigger] walk_page(fa.mem, pt.root as int, q) is None by {
                reveal(walk_page);
                assert(fa.mem.word(root.0 + 8 * page_index(q, 2)) == 0);
            }
            assert(!fa.free@.contains(root.0)) by {
                if fa.free@.contains(root.0) {
                    let j = choose|j: int| 0 <= j < fa.free@.len() && fa.free@[j] == root.0;
                    assert(old(fa).free@[j + 1] == old(fa).free@[0]);
                }
            }
        }
        Ok(pt)
    }

    /// Reads entry `vpn` of the table at `table`.
    pub fn get_entry(&self, fa: &StaticPageAllocator, table: u64, vpn: VirtualPageNumber) -> (r: PageTableEntry)
        requires
            self.wf(fa),
            self.tables@.contains_key(table),
            vpn.0 < 512,
        ensures
            r.0 == fa.mem.word(slot(table as int, vpn.0 as int)),
    {
        PageTableEntry(fa.mem.read_word(table + 8 * (vpn.0 as u64)))
    }

    /// The innermost entry for `va`, found by walking from the root: a missing
    /// table on the way is taken from `fa`, zero-filled and installed as a
    /// branch. Returns the entry's physical address.
    pub fn walk_alloc(&mut self, fa: &mut StaticPageAllocator, va: &VirtualAddr) -> (r: Result<u64, Exhausted>)
        requires
            old(self).wf(old(fa)),
        ensures
            final(self).wf(final(fa)),
            final(self).root == old(self).root,
            final(fa).start == old(fa).start,
            final(fa).end == old(fa).end,
            is_suffix(old(fa).free@, final(fa).free@),
            taken_are_tables(old(fa).free@, final(fa).free@, final(self).tables@),
            tables_grow(old(self).tables@, final(self).tables@),
            forall|q: int| #[trigger] walk_page(final(fa).mem, final(self).root as int, q) == walk_page(old(fa).mem, old(self).root as int, q),
            r is Err ==> final(fa).free@.len() == 0 && old(fa).free@.len() < 2,
            old(fa).free@.len() - final(fa).free@.len() <= 2,
            tables_from(old(self).tables@, old(fa).free@, final(self).tables@),
            writes_only_tables(old(fa).mem, final(fa).mem, final(self).tables@),
            tables_present(old(fa).mem, old(self).root as int, va.0 as int / 4096) ==> r is Ok && *final(fa) == *old(fa)
                && *final(self) == *old(self),
            r matches Ok(s) ==> ({
                let p = va.0 as int / 4096;
                let m0 = old(fa).mem;
                let m = final(fa).mem;
                let root = final(self).root as int;
                let s1 = slot(root, page_index(p, 2));
                let s2 = slot(level1_table(m, root, p), page_index(p, 1));
                &&& tables_same_except2(m0, m, old(self).tables@, s1, s2)
                &&& new_tables_zero(m, old(self).tables@, final(self).tables@, s2)
                &&& m.word(s1) != m0.word(s1) ==> kind_of(m0.word(s1)) == EntryKind::NotValid
                &&& old(self).tables@.contains_key(level1_table(m, root, p) as u64) && m.word(s2) != m0.word(s2)
                    ==> kind_of(m0.word(s2)) == EntryKind::NotValid
            }),
            r matches Ok(s) ==> ({
                let p = va.0 as int / 4096;
                let m = final(fa).mem;
                let root = final(self).root as int;
                let c1 = level1_table(m, root, p);
                let c0 = level0_table(m, root, p);
                &&& kind_of(m.word(slot(root, page_index(p, 2)))) == EntryKind::Branch(PhysicalAddr(c1 as u64))
                &&& kind_of(m.word(slot(c1, page_index(p, 1)))) == EntryKind::Branch(PhysicalAddr(c0 as u64))
                &&& final(self).tables@.contains_key(c1 as u64)
                &&& final(self).tables@[c1 as u64] == seq![page_index(p, 2)]
                &&& final(self).tables@.contains_key(c0 as u64)
                &&& final(self).tables@[c0 as u64] == seq![page_index(p, 2), page_index(p, 1)]
                &&& s == slot(c0, page_index(p, 0))
            }),
    {
        let ghost fa0 = *fa;
        let ghost tables0 = self.tables@;
        let vpns = va.virtual_page_numbers();
        let root = self.root;
        let i2 = vpns[2].0 as u64;
        let i1 = vpns[1].0 as u64;
        let i0 = vpns[0].0 as u64;
        proof {
            assert(vpns@[2].0 == vpn_of(va.0, 2));
            assert(vpns@[1].0 == vpn_of(va.0, 1));
            assert(vpns@[0].0 == vpn_of(va.0, 0));
        }
        let t1 = match self.descend(fa, root, i2) {
            Ok(Some(t)) => t,
            Ok(None) => return Ok(root + 8 * i2),
            Err(e) => return Err(e),
        };
        let ghost fa1 = *fa;
        let ghost tables1 = self.tables@;
        proof {
            assert(tables1[t1] =~= seq![i2 as int]);
            assert(tables1.contains_key(root));
        }
        let t0 = match self.descend(fa, t1, i1) {
            Ok(Some(t)) => t,
            Ok(None) => return Ok(t1 + 8 * i1),
            Err(e) => {
                proof {
                    lemma_taken_compose(fa0.free@, fa1.free@, fa.free@, tables0, tables1, self.tables@);
                    lemma_step_compose(fa0, fa1, *fa, tables0, tables1, self.tables@);
                    if tables_present(fa0.mem, root as int, va.0 as int / 4096) {
                        assert(fa1 == fa0);
                        assert(entry_ppn(fa0.mem.word(slot(root as int, i2 as int))) * 4096 < 0x1_0000_0000_0000_0000);
                        assert(t1 as int == level1_table(fa0.mem, root as int, va.0 as int / 4096));
                    }
                }
                return Err(e);
            },
        };
        proof {
            lemma_taken_compose(fa0.free@, fa1.free@, fa.free@, tables0, tables1, self.tables@);
            lemma_step_compose(fa0, fa1, *fa, tables0, tables1, self.tables@);
            let s1 = slot(root as int, i2 as int);
            let s2 = slot(t1 as int, i1 as int);
            assert(tables0.contains_key(root));
            assert forall|t: u64, i: int|
                self.tables@.contains_key(t) && !tables0.contains_key(t) && 0 <= i < 512 && slot(t as int, i) != s2
                    implies #[trigger] fa.mem.word(slot(t as int, i)) == 0 by {
                if tables1.contains_key(t) {
                    assert(fa1.mem.word(slot(t as int, i)) == 0);
                    assert(fa.mem.word(slot(t as int, i)) == fa1.mem.word(slot(t as int, i)));
                }
            }
            assert forall|t: u64, i: int|
                tables0.contains_key(t) && 0 <= i < 512 && slot(t as int, i) != s1 && slot(t as int, i) != s2
                    implies #[trigger] fa.mem.word(slot(t as int, i)) == fa0.mem.word(slot(t as int, i)) by {
                assert(fa1.mem.word(slot(t as int, i)) == fa0.mem.word(slot(t as int, i)));
                assert(tables1.contains_key(t));
            }
            let m = fa.mem;
            assert(self.tables@[t0] =~= seq![i2 as int, i1 as int]);
            if slot(root as int, i2 as int) == slot(t1 as int, i1 as int) {
                lemma_slot_distinct(root as int, t1 as int, i2 as int, i1 as int);
            }
            assert(m.word(slot(root as int, i2 as int)) == fa1.mem.word(slot(root as int, i2 as int)));
            if tables0.contains_key(t1) {
                assert(kind_of(fa0.mem.word(s1)) != EntryKind::NotValid);
                assert(fa1 == fa0);
            }
        }
        Ok(t0 + 8 * i0)
    }

    /// Follows entry `idx` of the table at `table` one level down. A branch
    /// yields its table; a not-valid entry gets a fresh zero-filled table from
    /// `fa`, installed as a branch; a leaf stops the walk (`None`).
    fn descend(&mut self, fa: &mut StaticPageAllocator, table: u64, idx: u64) -> (r: Result<Option<u64>, Exhausted>)
        requires
            old(self).wf(old(fa)),
            old(self).tables@.contains_key(table),
            old(self).tables@[table].len() < 2,
            idx < 512,
        ensures
            final(self).wf(final(fa)),
            final(self).root == old(self).root,
            final(fa).start == old(fa).start,
            final(fa).end == old(fa).end,
            is_suffix(old(fa).free@, final(fa).free@),
            taken_are_tables(old(fa).free@, final(fa).free@, final(self).tables@),
            tables_grow(old(self).tables@, final(self).tables@),
            tables_same_except(old(fa).mem, final(fa).mem, old(self).tables@, slot(table as int, idx as int)),
            forall|q: int| #[trigger] walk_page(final(fa).mem, final(self).root as int, q) == walk_page(old(fa).mem, old(self).root as int, q),
            !(r matches Ok(None)),
            kind_of(old(fa).mem.word(slot(table as int, idx as int))) != EntryKind::NotValid ==> r is Ok && *final(fa) == *old(fa)
                && *final(self) == *old(self),
            tables_from(old(self).tables@, old(fa).free@, final(self).tables@),
            writes_only_tables(old(fa).mem, final(fa).mem, final(self).tables@),
            new_tables_zero(final(fa).mem, old(self).tables@, final(self).tables@, -1),
            r is Err ==> final(fa).free@.len() == 0 && old(fa).free@.len() == 0,
            old(fa).free@.len() - final(fa).free@.len() <= 1,
            r matches Ok(Some(c)) ==> {
                &&& kind_of(final(fa).mem.word(slot(table as int, idx as int))) == EntryKind::Branch(PhysicalAddr(c))
                &&& final(self).tables@.contains_key(c)
                &&& final(self).tables@[c] == old(self).tables@[table].push(idx as int)
                &&& kind_of(old(fa).mem.word(slot(table as int, idx as int))) == EntryKind::NotValid ==> !old(self).tables@.contains_key(c)
            },
    {
        let s = table + 8 * idx;
        let e = self.get_entry(fa, table, VirtualPageNumber(idx as u16));
        proof {
            assert(upper_ok(fa.mem, self.tables@, table, idx as int));
            assert(fa.free@ =~= fa.free@.subrange(0, fa.free@.len() as int));
        }
        match e.kind() {
            EntryKind::Leaf => Ok(None),
            EntryKind::Branch(c) => Ok(Some(c.0)),
            EntryKind::NotValid => {
                let ghost fa0 = *fa;
                let c = match fa.kalloc() {
                    Ok(c) => c,
                    Err(e) => {
                        assert(fa.free@ =~= fa0.free@.subrange(0, fa0.free@.len() as int));
                        return Err(e);
                    },
                };
                let ghost fa1 = *fa;
                let b = PageTableEntry::new(c.ppn(), 0, PTEPermission::valid());
                fa.mem.write_word(s, b.0);
                let ghost old_tables = self.tables@;
                proof {
                    lemma_install(fa0, fa1, *fa, old_tables, self.root, table, idx as int, c.0, b.0);
                    self.tables@ = old_tables.insert(c.0, old_tables[table].push(idx as int));
                    assert(fa.free@ =~= fa0.free@.subrange(fa0.free@.len() - fa.free@.len(), fa0.free@.len() as int));
                }
                Ok(Some(c.0))
            },
        }
    }
}

impl PageTable {
    /// Translates `va` by walking from the root: a branch descends one level,
    /// a leaf gives its frame with `va`'s page offset and its permission byte,
    /// and a not-valid entry, or no leaf after the innermost level, is a fault.
    pub fn get_phys_addr_perm(&self, fa: &StaticPageAllocator, va: &VirtualAddr) -> (r: Result<(PhysicalAddr, PTEPermission), TranslationFault>)
        requires
            self.wf(fa),
        ensures
            r == match self.translation(fa, va.0) {
                Some((a, p)) => Ok((PhysicalAddr(a), PTEPermission(p))),
                None => Err(TranslationFault),
            },
    {
        let vpns = va.virtual_page_numbers();
        let off = va.page_offset();
        proof {
            reveal(walk_page);
            assert(vpns@[2].0 == vpn_of(va.0, 2));
            assert(vpns@[1].0 == vpn_of(va.0, 1));
            assert(vpns@[0].0 == vpn_of(va.0, 0));
            assert(upper_ok(fa.mem, self.tables@, self.root, vpns@[2].0 as int));
        }
        let e2 = self.get_entry(fa, self.root, vpns[2]);
        match e2.kind() {
            EntryKind::Leaf => Ok((e2.convert_to_physical_addr(&off), e2.perm())),
            EntryKind::NotValid => Err(TranslationFault),
            EntryKind::Branch(c1) => {
                proof {
                    assert(upper_ok(fa.mem, self.tables@, c1.0, vpns@[1].0 as int));
                }
                let e1 = self.get_entry(fa, c1.0, vpns[1]);
                match e1.kind() {
                    EntryKind::Leaf => Ok((e1.convert_to_physical_addr(&off), e1.perm())),
                    EntryKind::NotValid => Err(TranslationFault),
                    EntryKind::Branch(c0) => {
                        let e0 = self.get_entry(fa, c0.0, vpns[0]);
                        match e0.kind() {
                            EntryKind::Leaf => Ok((e0.convert_to_physical_addr(&off), e0.perm())),
                            _ => Err(TranslationFault),
                        }
                    },
                }
            },
        }
    }

    /// Maps the page of `va` to the frame of `pa` with `perm` and the valid bit.
    fn map_one(&mut self, fa: &mut StaticPageAllocator, va: &VirtualAddr, pa: &PhysicalAddr, perm: PTEPermission) -> (r: Result<(), Exhausted>)
        requires
            old(self).wf(old(fa)),
            leaf_perm(perm.0),
            va.0 < MAX_VIRTUAL_ADDR,
            pa.0 < MAX_PHYSICAL_ADDR,
        ensures
            final(self).wf(final(fa)),
            final(self).root == old(self).root,
            final(fa).start == old(fa).start,
            final(fa).end == old(fa).end,
            is_suffix(old(fa).free@, final(fa).free@),
            taken_are_tables(old(fa).free@, final(fa).free@, final(self).tables@),
            tables_grow(old(self).tables@, final(self).tables@),
            r is Err ==> final(fa).free@.len() == 0 && old(fa).free@.len() < 2,
            old(fa).free@.len() - final(fa).free@.len() <= 2,
            r is Err ==> forall|q: int| #[trigger] walk_page(final(fa).mem, final(self).root as int, q) == walk_page(old(fa).mem, old(self).root as int, q),
            r is Ok ==> walk_page(final(fa).mem, final(self).root as int, va.0 as int / 4096) == Some(leaf_word(perm.0, ppn_of(pa.0))),
            r is Ok ==> forall|q: int| is_page(q) && q != va.0 as int / 4096 ==> #[trigger] walk_page(final(fa).mem, final(self).root as int, q) == walk_page(old(fa).mem, old(self).root as int, q),
            tables_from(old(self).tables@, old(fa).free@, final(self).tables@),
            writes_only_tables(old(fa).mem, final(fa).mem, final(self).tables@),
            tables_present(old(fa).mem, old(self).root as int, va.0 as int / 4096) ==> r is Ok && final(fa).free@ == old(fa).free@
                && final(self).tables@ == old(self).tables@,
    {
        let ghost fa0 = *fa;
        let s = self.walk_alloc(fa, va)?;
        let ghost fa1 = *fa;
        let ppn = pa.ppn();
        let e = PageTableEntry::new(ppn, 0, PTEPermission::valid().union(perm));
        fa.mem.write_word(s, e.0);
        proof {
            let p = va.0 as int / 4096;
            let c0 = level0_table(fa1.mem, self.root as int, p);
            assert(self.tables@.contains_key(c0 as u64));
            lemma_frame_of_slot(c0, page_index(p, 0));
            lemma_frame_has_word(fa1, c0, page_index(p, 0));
            assert forall|a: int| fa0.mem.has_word(a) && !self.tables@.contains_key(frame_of(a) as u64) implies #[trigger] fa.mem.word(a)
                == fa0.mem.word(a) by {
                assert(fa1.mem.word(a) == fa0.mem.word(a));
                assert(a != s);
                lemma_index_distinct(fa1.mem, a, s as int);
            }
            let pb = perm.0;
            assert(1u8 | pb == pb | 1u8) by (bit_vector);
            assert(ppn.0 < 0x1000_0000_0000);
            lemma_leaf_write(fa1, *fa, self.tables@, self.root, p, s as int, e.0, perm.0, ppn.0);
            assert forall|q: int| is_page(q) && q != p implies #[trigger] walk_page(fa.mem, self.root as int, q) == walk_page(fa0.mem, self.root as int, q) by {
                assert(walk_page(fa1.mem, self.root as int, q) == walk_page(fa0.mem, self.root as int, q));
            }
        }
        Ok(())
    }

    /// Maps the pages of `[va, va + size)` (from `va`'s page on) one by one to
    /// the frames from `pa`'s frame on, with `perm` and the valid bit. Tables
    /// missing on the way come from `fa`; when it runs out the mapping stops
    /// with `Exhausted`.
    pub fn map_pages(
        &mut self,
        fa: &mut StaticPageAllocator,
        va: VirtualAddr,
        pa: PhysicalAddr,
        size: u64,
        perm: PTEPermission,
        _rsw: u8,
    ) -> (r: Result<(), Exhausted>)
        requires
            old(self).wf(old(fa)),
            size > 0,
            leaf_perm(perm.0),
            round_down(va.0 as int) + round_up(size as int) <= MAX_VIRTUAL_ADDR,
            round_down(pa.0 as int) + round_up(size as int) <= MAX_PHYSICAL_ADDR,
        ensures
            final(self).wf(final(fa)),
            final(self).root == old(self).root,
            final(fa).start == old(fa).start,
            final(fa).end == old(fa).end,
            is_suffix(old(fa).free@, final(fa).free@),
            taken_are_tables(old(fa).free@, final(fa).free@, final(self).tables@),
            tables_grow(old(self).tables@, final(self).tables@),
            r is Ok ==> maps_range(
                final(fa).mem,
                final(self).root as int,
                va.0 as int / 4096,
                pa.0 as int / 4096,
                round_up(size as int) / 4096,
                perm.0,
            ),
            r is Err ==> final(fa).free@.len() == 0,
            old(fa).free@.len() >= 2 * (round_up(size as int) / 4096) ==> r is Ok,
            size <= 4096 && tables_present(old(fa).mem, old(self).root as int, va.0 as int / 4096) ==> r is Ok && final(fa).free@
                == old(fa).free@,
            tables_from(old(self).tables@, old(fa).free@, final(self).tables@),
            writes_only_tables(old(fa).mem, final(fa).mem, final(self).tables@),
            forall|q: int|
                is_page(q) && !(va.0 as int / 4096 <= q < va.0 as int / 4096 + round_up(size as int) / 4096)
                    ==> #[trigger] walk_page(final(fa).mem, final(self).root as int, q) == walk_page(
                    old(fa).mem,
                    old(self).root as int,
                    q,
                ),
    {
        let ghost fa_in = *fa;
        let ghost p0 = va.0 as int / 4096;
        let ghost f0 = pa.0 as int / 4096;
        let va0 = page_round_down(va.0);
        let pa0 = page_round_down(pa.0);
        let n = page_round_up(size) / PAGE_SIZE;
        proof {
            vstd::arithmetic::div_mod::lemma_fundamental_div_mod(va.0 as int, 4096);
            vstd::arithmetic::div_mod::lemma_fundamental_div_mod(pa.0 as int, 4096);
            vstd::arithmetic::div_mod::lemma_fundamental_div_mod(round_up(size as int), 4096);
            assert(round_up(size as int) % 4096 == 0) by {
                vstd::arithmetic::div_mod::lemma_fundamental_div_mod(size as int, 4096);
                if size % 4096 != 0 {
                    vstd::arithmetic::div_mod::lemma_mod_multiples_vanish(size as int / 4096 + 1, 0, 4096);
                    assert(round_up(size as int) == 4096 * (size as int / 4096 + 1));
                }
            }
            lemma_taken_none(fa.free@, self.tables@);
            assert forall|t: u64| #[trigger] self.tables@.contains_key(t) implies self.tables@.contains_key(t) || fa.free@.contains(t) by {}
            assert(size <= 4096 ==> round_up(size as int) == 4096);
        }
        let mut k: u64 = 0;
        while k < n
            invariant
                self.wf(fa),
                self.root == old(self).root,
                fa.start == fa_in.start,
                fa.end == fa_in.end,
                is_suffix(fa_in.free@, fa.free@),
                taken_are_tables(fa_in.free@, fa.free@, self.tables@),
                tables_grow(old(self).tables@, self.tables@),
                fa.free@.len() + 2 * k >= fa_in.free@.len(),
                tables_from(old(self).tables@, fa_in.free@, self.tables@),
                writes_only_tables(fa_in.mem, fa.mem, self.tables@),
                k == 0 ==> *fa == fa_in && self.tables@ == old(self).tables@,
                k == 1 && n == 1 && tables_present(fa_in.mem, self.root as int, p0) ==> fa.free@ == fa_in.free@,
                fa_in == *old(fa),
                leaf_perm(perm.0),
                k <= n,
                n == round_up(size as int) / 4096,
                va0 == 4096 * p0,
                pa0 == 4096 * f0,
                p0 == va.0 as int / 4096,
                f0 == pa.0 as int / 4096,
                va0 + 4096 * n <= MAX_VIRTUAL_ADDR,
                pa0 + 4096 * n <= MAX_PHYSICAL_ADDR,
                forall|j: int| 0 <= j < k ==> #[trigger] walk_page(fa.mem, self.root as int, p0 + j) == Some(leaf_word(perm.0, f0 + j)),
                forall|q: int|
                    is_page(q) && !(p0 <= q < p0 + k) ==> #[trigger] walk_page(fa.mem, self.root as int, q) == walk_page(
                        fa_in.mem,
                        self.root as int,
                        q,
                    ),
            decreases n - k,
        {
            let ghost fa_before = *fa;
            let ghost tables_before = self.tables@;
            proof {
                lemma_page_step(va0 as int, p0, k as int);
                lemma_page_step(pa0 as int, f0, k as int);
            }
            let cur = VirtualAddr(va0 + k * PAGE_SIZE);
            let frame = PhysicalAddr(pa0 + k * PAGE_SIZE);
            match self.map_one(fa, &cur, &frame, perm) {
                Ok(()) => {},
                Err(e) => {
                    proof {
                        lemma_taken_compose(fa_in.free@, fa_before.free@, fa.free@, old(self).tables@, tables_before, self.tables@);
                        lemma_step_compose(fa_in, fa_before, *fa, old(self).tables@, tables_before, self.tables@);
                    }
                    return Err(e);
                },
            }
            proof {
                lemma_taken_compose(fa_in.free@, fa_before.free@, fa.free@, old(self).tables@, tables_before, self.tables@);
                lemma_step_compose(fa_in, fa_before, *fa, old(self).tables@, tables_before, self.tables@);
                lemma_map_step(fa_in.mem, fa_before.mem, fa_before.mem, fa.mem, self.root as int, p0, f0, k as int, perm.0);
            }
            k = k + 1;
        }
        Ok(())
    }
}

proof fn lemma_page_step(a0: int, p0: int, k: int)
    requires
        a0 == 4096 * p0,
        0 <= k,
        0 <= p0,
    ensures
        (a0 + k * 4096) / 4096 == p0 + k,
        (a0 + k * 4096) % 4096 == 0,
{
    assert(a0 + k * 4096 == 4096 * (p0 + k));
    vstd::arithmetic::div_mod::lemma_div_multiples_vanish(p0 + k, 4096);
    vstd::arithmetic::div_mod::lemma_mod_multiples_basic(p0 + k, 4096);
}

/// Once pages `va / 4096 ..` map to frames `pa / 4096 ..` with `perm` (as
/// `map_pages` leaves them), an address at offset `o` in the `k`-th page
/// translates to offset `o` in the `k`-th frame, with `perm` and the valid bit.
pub proof fn lemma_translation_correct(mem: PhysicalMemory, root: int, va: u64, pa: u64, n: int, perm: u8, k: int, o: int)
    requires
        va % 4096 == 0,
        pa % 4096 == 0,
        va + n * 4096 <= MAX_VIRTUAL_ADDR,
        pa + n * 4096 <= MAX_PHYSICAL_ADDR,
        leaf_perm(perm),
        maps_range(mem, root, va as int / 4096, pa as int / 4096, n, perm),
        0 <= k < n,
        0 <= o < 4096,
    ensures
        translate_spec(mem, root, (va + k * 4096 + o) as u64) == Some(((pa + k * 4096 + o) as u64, perm | 1u8)),
{
    let v = va + k * 4096 + o;
    vstd::arithmetic::div_mod::lemma_fundamental_div_mod(va as int, 4096);
    vstd::arithmetic::div_mod::lemma_fundamental_div_mod(pa as int, 4096);
    let p0 = va as int / 4096;
    let f0 = pa as int / 4096;
    assert(v == 4096 * (p0 + k) + o);
    vstd::arithmetic::div_mod::lemma_fundamental_div_mod_converse(v, 4096, p0 + k, o);
    assert(walk_page(mem, root, p0 + k) == Some(leaf_word(perm, f0 + k)));
    assert(f0 + k < 0x1000_0000_0000);
    lemma_leaf_word(perm, (f0 + k) as u64);
}

/// Taking a free frame from `fa` (and zero-filling it) leaves a page table of
/// `fa` well formed and changes none of its walks.
pub proof fn lemma_kalloc_keeps_table(pt: PageTable, fa0: StaticPageAllocator, fa1: StaticPageAllocator)
    requires
        pt.wf(&fa0),
        fa0.free@.len() > 0,
        fa1.wf(),
        fa1.start == fa0.start,
        fa1.end == fa0.end,
        fa1.mem.base == fa0.mem.base,
        fa1.mem.words@.len() == fa0.mem.words@.len(),
        fa1.free@ == fa0.free@.drop_first(),
        forall|a: int|
            fa0.mem.has_word(a) && !(fa0.free@[0] <= a < fa0.free@[0] + 4096) ==> #[trigger] fa1.mem.word(a)
                == fa0.mem.word(a),
    ensures
        pt.wf(&fa1),
        !pt.tables@.contains_key(fa0.free@[0]),
        forall|q: int| #[trigger] walk_page(fa1.mem, pt.root as int, q) == walk_page(fa0.mem, pt.root as int, q),
        forall|p: int| tables_present(fa0.mem, pt.root as int, p) ==> #[trigger] tables_present(fa1.mem, pt.root as int, p),
{
    let f = fa0.free@[0];
    let tables = pt.tables@;
    let m0 = fa0.mem;
    let m1 = fa1.mem;
    assert(fa0.is_frame(f as int));
    assert(!tables.contains_key(f)) by {
        if tables.contains_key(f) {
            assert(fa0.free@.contains(f));
        }
    }
    assert forall|t: u64, i: int| tables.contains_key(t) && 0 <= i < 512 && slot(t as int, i) != -1 implies #[trigger] m1.word(
        slot(t as int, i),
    ) == m0.word(slot(t as int, i)) by {
        lemma_frame_has_word(fa0, t as int, i);
        lemma_slot_outside_frame(t as int, i, f as int);
    }
    assert forall|t: u64, i: int| tables.contains_key(t) && tables[t].len() < 2 && 0 <= i < 512 implies #[trigger] upper_ok(
        m1,
        tables,
        t,
        i,
    ) by {
        assert(upper_ok(m0, tables, t, i));
        assert(m1.word(slot(t as int, i)) == m0.word(slot(t as int, i)));
    }
    assert forall|t: u64| #[trigger] tables.contains_key(t) implies fa1.is_frame(t as int) && !fa1.free@.contains(t) by {
        if fa1.free@.contains(t) {
            let j = choose|j: int| 0 <= j < fa1.free@.len() && fa1.free@[j] == t;
            assert(fa0.free@[j + 1] == t);
        }
    }
    assert forall|q: int| #[trigger] walk_page(m1, pt.root as int, q) == walk_page(m0, pt.root as int, q) by {
        lemma_same_tables_same_walk(m0, m1, tables, pt.root, q);
    }
    assert forall|p: int| tables_present(m0, pt.root as int, p) implies #[trigger] tables_present(m1, pt.root as int, p) by {
        let i2 = page_index(p, 2);
        assert(upper_ok(m0, tables, pt.root, i2));
        assert(m1.word(slot(pt.root as int, i2)) == m0.word(slot(pt.root as int, i2)));
        let c1 = level1_table(m0, pt.root as int, p);
        assert(tables.contains_key(c1 as u64));
        assert(m1.word(slot(c1, page_index(p, 1))) == m0.word(slot(c1, page_index(p, 1))));
    }
}

/// Giving back to `fa` a frame that is not one of the table's leaves the
/// table well formed and changes none of its walks.
pub proof fn lemma_kfree_keeps_table(pt: PageTable, fa0: StaticPageAllocator, fa1: StaticPageAllocator, f: u64)
    requires
        pt.wf(&fa0),
        !pt.tables@.contains_key(f),
        fa1.wf(),
        fa1.start == fa0.start,
        fa1.end == fa0.end,
        fa1.mem == fa0.mem,
        fa1.free@ == seq![f].add(fa0.free@),
    ensures
        pt.wf(&fa1),
{
    assert forall|t: u64| #[trigger] pt.tables@.contains_key(t) implies fa1.is_frame(t as int) && !fa1.free@.contains(t) by {
        if fa1.free@.contains(t) {
            let j = choose|j: int| 0 <= j < fa1.free@.len() && fa1.free@[j] == t;
            if j > 0 {
                assert(fa0.free@[j - 1] == t);
            }
        }
    }
}

proof fn lemma_same_tables_same_walk(m1: PhysicalMemory, m2: PhysicalMemory, tables: Map<u64, Seq<int>>, root: u64, q: int)
    requires
        tree_ok(m1, tables, root),
        tables_same_except(m1, m2, tables, -1),
    ensures
        walk_page(m2, root as int, q) == walk_page(m1, root as int, q),
{
    reveal(walk_page);
    let s2 = slot(root as int, page_index(q, 2));
    assert(upper_ok(m1, tables, root, page_index(q, 2)));
    assert(m2.word(s2) == m1.word(s2));
    if let EntryKind::Branch(c1) = kind_of(m1.word(s2)) {
        let s1 = slot(c1.0 as int, page_index(q, 1));
        assert(tables.contains_key(c1.0));
        assert(upper_ok(m1, tables, c1.0, page_index(q, 1)));
        assert(m2.word(s1) == m1.word(s1));
        if let EntryKind::Branch(c0) = kind_of(m1.word(s1)) {
            assert(tables.contains_key(c0.0));
            let s0 = slot(c0.0 as int, page_index(q, 0));
            assert(m2.word(s0) == m1.word(s0));
        }
    }
}

/// One more page of a range mapped, the others as they were.
proof fn lemma_map_step(
    m_in: PhysicalMemory,
    m0: PhysicalMemory,
    m1: PhysicalMemory,
    m2: PhysicalMemory,
    root: int,
    p0: int,
    f0: int,
    k: int,
    perm: u8,
)
    requires
        0 <= p0,
        0 <= k,
        p0 + k < 0x800_0000,
        forall|j: int| 0 <= j < k ==> #[trigger] walk_page(m0, root, p0 + j) == Some(leaf_word(perm, f0 + j)),
        forall|q: int| is_page(q) && !(p0 <= q < p0 + k) ==> #[trigger] walk_page(m0, root, q) == walk_page(m_in, root, q),
        forall|q: int| #[trigger] walk_page(m1, root, q) == walk_page(m0, root, q),
        walk_page(m2, root, p0 + k) == Some(leaf_word(perm, f0 + k)),
        forall|q: int| is_page(q) && q != p0 + k ==> #[trigger] walk_page(m2, root, q) == walk_page(m1, root, q),
    ensures
        forall|j: int| 0 <= j < k + 1 ==> #[trigger] walk_page(m2, root, p0 + j) == Some(leaf_word(perm, f0 + j)),
        forall|q: int| is_page(q) && !(p0 <= q < p0 + k + 1) ==> #[trigger] walk_page(m2, root, q) == walk_page(m_in, root, q),
{
    assert forall|j: int| 0 <= j < k + 1 implies #[trigger] walk_page(m2, root, p0 + j) == Some(leaf_word(perm, f0 + j)) by {
        if j < k {
            assert(walk_page(m1, root, p0 + j) == walk_page(m0, root, p0 + j));
            assert(walk_page(m2, root, p0 + j) == walk_page(m1, root, p0 + j));
        }
    }
    assert forall|q: int| is_page(q) && !(p0 <= q < p0 + k + 1) implies #[trigger] walk_page(m2, root, q) == walk_page(m_in, root, q) by {
        assert(walk_page(m1, root, q) == walk_page(m0, root, q));
        assert(walk_page(m2, root, q) == walk_page(m1, root, q));
    }
}

/// Writing a leaf at the innermost entry of page `p`'s walk keeps the tree well
/// formed, makes `p` map through that leaf and changes no other page's walk.
#[verifier::spinoff_prover]
#[verifier::rlimit(60)]
proof fn lemma_leaf_write(
    fa1: StaticPageAllocator,
    fa2: StaticPageAllocator,
    tables: Map<u64, Seq<int>>,
    root: u64,
    p: int,
    s: int,
    e: u64,
    perm: u8,
    n: u64,
)
    requires
        fa1.wf(),
        tree_ok(fa1.mem, tables, root),
        forall|t: u64| #[trigger] tables.contains_key(t) ==> fa1.is_frame(t as int) && !fa1.free@.contains(t),
        is_page(p),
        ({
            let m = fa1.mem;
            let c1 = level1_table(m, root as int, p);
            let c0 = level0_table(m, root as int, p);
            &&& kind_of(m.word(slot(root as int, page_index(p, 2)))) == EntryKind::Branch(PhysicalAddr(c1 as u64))
            &&& kind_of(m.word(slot(c1, page_index(p, 1)))) == EntryKind::Branch(PhysicalAddr(c0 as u64))
            &&& tables.contains_key(c1 as u64)
            &&& tables[c1 as u64] == seq![page_index(p, 2)]
            &&& tables.contains_key(c0 as u64)
            &&& tables[c0 as u64] == seq![page_index(p, 2), page_index(p, 1)]
            &&& s == slot(c0, page_index(p, 0))
        }),
        leaf_perm(perm),
        n < 0x1000_0000_0000,
        e == leaf_word(perm, n as int),
        fa2.start == fa1.start,
        fa2.end == fa1.end,
        fa2.free == fa1.free,
        fa2.mem.base == fa1.mem.base,
        fa2.mem.words@ == fa1.mem.words@.update(fa1.mem.index_of(s), e),
    ensures
        fa2.wf(),
        tree_ok(fa2.mem, tables, root),
        forall|t: u64| #[trigger] tables.contains_key(t) ==> fa2.is_frame(t as int) && !fa2.free@.contains(t),
        walk_page(fa2.mem, root as int, p) == Some(e),
        forall|q: int| is_page(q) && q != p ==> #[trigger] walk_page(fa2.mem, root as int, q) == walk_page(fa1.mem, root as int, q),
{
    reveal(walk_page);
    let m1 = fa1.mem;
    let m2 = fa2.mem;
    let c1 = level1_table(m1, root as int, p);
    let c0 = level0_table(m1, root as int, p);
    assert(fa1.is_frame(c0));
    lemma_frame_has_word(fa1, c0, page_index(p, 0));
    assert forall|t: u64, i: int| tables.contains_key(t) && 0 <= i < 512 && slot(t as int, i) != s implies #[trigger] m2.word(
        slot(t as int, i),
    ) == m1.word(slot(t as int, i)) by {
        lemma_frame_has_word(fa1, t as int, i);
        lemma_index_distinct(m1, slot(t as int, i), s);
    }
    assert forall|t: u64, i: int| tables.contains_key(t) && tables[t].len() < 2 && 0 <= i < 512 implies #[trigger] upper_ok(
        m2,
        tables,
        t,
        i,
    ) by {
        if slot(t as int, i) == s {
            lemma_slot_distinct(t as int, c0, i, page_index(p, 0));
        }
        assert(upper_ok(m1, tables, t, i));
    }
    lemma_leaf_word(perm, n);
    lemma_frame_has_word(fa1, root as int, page_index(p, 2));
    lemma_frame_has_word(fa1, c1, page_index(p, 1));
    if slot(root as int, page_index(p, 2)) == s {
        lemma_slot_distinct(root as int, c0, page_index(p, 2), page_index(p, 0));
    }
    if slot(c1, page_index(p, 1)) == s {
        lemma_slot_distinct(c1, c0, page_index(p, 1), page_index(p, 0));
    }
    assert(m2.word(slot(root as int, page_index(p, 2))) == m1.word(slot(root as int, page_index(p, 2))));
    assert(m2.word(slot(c1, page_index(p, 1))) == m1.word(slot(c1, page_index(p, 1))));
    assert(m2.word(s) == e);
    assert forall|q: int| is_page(q) && q != p implies #[trigger] walk_page(m2, root as int, q) == walk_page(m1, root as int, q) by {
        lemma_leaf_write_keeps_walks(m1, m2, tables, root, c0 as u64, p, q);
    }
}

} // verus!
