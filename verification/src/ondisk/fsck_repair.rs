//! Planning the repair of what a consistency check found: which superblock
//! copies to rewrite, which bitmap bits to fix and which superblock fields
//! to recompute; and reading slot and block numbers back out of the
//! check's messages ("slot 5 extent block 123 not marked allocated").
use vstd::prelude::*;
use vstd::string::StringSliceAdditionalSpecFns;
use super::bitmap::{Bitmap, count_set};
use super::checksum::{Crc32c, crc32c_spec};
use super::superblock::{Superblock, sb_geometry};

verus! {

/// Index of the first occurrence of `needle` in `s` at or after `from`,
/// or -1.
pub open spec fn find_from(s: Seq<u8>, needle: Seq<u8>, from: int) -> int
    decreases s.len() - from,
{
    if from < 0 || from + needle.len() > s.len() {
        -1
    } else if s.subrange(from, from + needle.len()) == needle {
        from
    } else if from >= s.len() {
        -1
    } else {
        find_from(s, needle, from + 1)
    }
}

/// `b` is an ASCII digit.
pub open spec fn is_digit(b: u8) -> bool {
    48 <= b <= 57
}

/// Index of the first byte of `s` that is not an ASCII digit, or -1.
pub open spec fn first_non_digit(s: Seq<u8>, from: int) -> int
    decreases s.len() - from,
{
    if from < 0 || from >= s.len() {
        -1
    } else if !is_digit(s[from]) {
        from
    } else {
        first_non_digit(s, from + 1)
    }
}

/// Value of a run of decimal digits.
pub open spec fn decimal_value(d: Seq<u8>) -> int
    decreases d.len(),
{
    if d.len() == 0 { 0 } else { decimal_value(d.drop_last()) * 10 + (d.last() - 48) }
}

/// The number in front of the first non-digit of `rest`: `None` when no
/// non-digit follows, when there are no digits, or when the value does not
/// fit in `u64`.
pub open spec fn leading_number(rest: Seq<u8>) -> Option<u64> {
    let e = first_non_digit(rest, 0);
    if e <= 0 {
        None
    } else if decimal_value(rest.take(e)) > u64::MAX {
        None
    } else {
        Some(decimal_value(rest.take(e)) as u64)
    }
}

/// The number after the first `slot ` of `s`.
pub open spec fn slot_of(s: Seq<u8>) -> Option<u64> {
    let i = find_from(s, seq![115u8, 108, 111, 116, 32], 0);
    if i < 0 { None } else { leading_number(s.skip(i + 5)) }
}

/// The part of `s` searched for a block number: after the first `slot `
/// and the space that ends the slot number, when there is one.
pub open spec fn after_slot(s: Seq<u8>) -> Seq<u8> {
    let i = find_from(s, seq![115u8, 108, 111, 116, 32], 0);
    if i < 0 {
        s
    } else {
        let rest = s.skip(i + 5);
        let j = find_from(rest, seq![32u8], 0);
        if j < 0 { rest } else { rest.skip(j + 1) }
    }
}

/// The number after the first `block ` of [`after_slot`].
pub open spec fn block_of(s: Seq<u8>) -> Option<u64> {
    let a = after_slot(s);
    let i = find_from(a, seq![98u8, 108, 111, 99, 107, 32], 0);
    if i < 0 { None } else { leading_number(a.skip(i + 6)) }
}

fn find_bytes(s: &[u8], needle: &[u8], from: usize) -> (r: Option<usize>)
    ensures
        r matches Some(i) ==> i as int == find_from(s@, needle@, from as int) && i + needle@.len() <= s@.len(),
        r is None ==> find_from(s@, needle@, from as int) == -1,
    decreases s@.len() - from,
{
    let n = s.len();
    if from > n || n - from < needle.len() {
        return None;
    }
    let mut k: usize = 0;
    while k < needle.len()
        invariant
            n == s@.len(),
            from + needle@.len() <= s@.len(),
            k <= needle@.len(),
            forall|q: int| 0 <= q < k ==> s@[from + q] == needle@[q],
        decreases needle@.len() - k,
    {
        if s[from + k] != needle[k] {
            proof {
                assert(s@.subrange(from as int, from + needle@.len())[k as int] != needle@[k as int]);
            }
            if from >= n {
                return None;
            }
            return find_bytes(s, needle, from + 1);
        }
        k = k + 1;
    }
    proof {
        assert(s@.subrange(from as int, from + needle@.len()) =~= needle@);
    }
    Some(from)
}

fn leading_number_of(rest: &[u8]) -> (r: Option<u64>)
    ensures
        r == leading_number(rest@),
{
    let mut e: usize = 0;
    let mut value: u64 = 0;
    let mut fits = true;
    while e < rest.len() && 48 <= rest[e] && rest[e] <= 57
        invariant
            e <= rest@.len(),
            forall|q: int| 0 <= q < e ==> is_digit(rest@[q]),
            first_non_digit(rest@, 0) == first_non_digit(rest@, e as int),
            fits ==> value == decimal_value(rest@.take(e as int)),
            !fits ==> decimal_value(rest@.take(e as int)) > u64::MAX,
            decimal_value(rest@.take(e as int)) >= 0,
        decreases rest@.len() - e,
    {
        let d = (rest[e] - 48) as u64;
        proof {
            assert(rest@.take(e as int + 1).drop_last() =~= rest@.take(e as int));
            assert(rest@.take(e as int + 1).last() == rest@[e as int]);
        }
        if fits && value <= (u64::MAX - d) / 10 {
            value = value * 10 + d;
        } else {
            fits = false;
        }
        e = e + 1;
    }
    if e == rest.len() || e == 0 || !fits {
        return None;
    }
    Some(value)
}

/// The slot number in a message of the form `... slot N ...`; `None` when
/// there is no `slot `, or no digits followed by a non-digit after it.
pub fn parse_slot_from_message(msg: &str) -> (r: Option<u64>)
    ensures
        r == slot_of(msg.spec_bytes()),
{
    let s = msg.as_bytes();
    let _n = s.len();
    let needle: [u8; 5] = [115, 108, 111, 116, 32];
    proof {
        assert(needle@ =~= seq![115u8, 108, 111, 116, 32]);
    }
    match find_bytes(s, needle.as_slice(), 0) {
        None => None,
        Some(i) => {
            let rest = copy_tail(s, i + 5);
            leading_number_of(rest.as_slice())
        },
    }
}

fn copy_tail(s: &[u8], from: usize) -> (r: Vec<u8>)
    requires
        from <= s@.len(),
    ensures
        r@ == s@.skip(from as int),
{
    let mut out: Vec<u8> = Vec::new();
    let mut k = from;
    while k < s.len()
        invariant
            from <= k <= s@.len(),
            out@ == s@.subrange(from as int, k as int),
        decreases s@.len() - k,
    {
        out.push(s[k]);
        k = k + 1;
        proof {
            assert(out@ =~= s@.subrange(from as int, k as int));
        }
    }
    proof {
        assert(out@ =~= s@.skip(from as int));
    }
    out
}

/// The block number in a message such as `slot 5 extent block 123 ...`,
/// searched after the slot number so that it is not mistaken for it.
pub fn parse_block_from_message(msg: &str) -> (r: Option<u64>)
    ensures
        r == block_of(msg.spec_bytes()),
{
    let s = msg.as_bytes();
    let _n = s.len();
    let slot: [u8; 5] = [115, 108, 111, 116, 32];
    let space: [u8; 1] = [32];
    let block: [u8; 6] = [98, 108, 111, 99, 107, 32];
    proof {
        assert(slot@ =~= seq![115u8, 108, 111, 116, 32]);
        assert(space@ =~= seq![32u8]);
        assert(block@ =~= seq![98u8, 108, 111, 99, 107, 32]);
    }
    let after: Vec<u8> = match find_bytes(s, slot.as_slice(), 0) {
        Some(idx) => {
            let rest = copy_tail(s, idx + 5);
            let _m = rest.len();
            match find_bytes(rest.as_slice(), space.as_slice(), 0) {
                Some(j) => copy_tail(rest.as_slice(), j + 1),
                None => rest,
            }
        },
        None => copy_tail(s, 0),
    };
    proof {
        assert(s@.skip(0) =~= s@);
        assert(after@ == after_slot(s@));
    }
    match find_bytes(after.as_slice(), block.as_slice(), 0) {
        None => None,
        Some(i) => {
            let rest = copy_tail(after.as_slice(), i + 6);
            leading_number_of(rest.as_slice())
        },
    }
}


/// How serious a consistency-check finding is.
#[derive(Debug, Clone, Copy, PartialEq, Eq)]
pub enum RepairSeverity {
    Error,
    Warning,
    Info,
}

/// The finding codes the repair knows (`ODF.SB.TERTIARY_STALE`, ...), and
/// every other code.
#[derive(Debug, Clone, Copy, PartialEq, Eq)]
pub enum RepairCode {
    TertiaryStale,
    TertiaryUnreadable,
    SecondaryStale,
    SecondaryUnreadable,
    BlockBitmapCrc,
    InodeBitmapCrc,
    FreeBlocks,
    FreeInodes,
    UnusedButBitmapSet,
    ExtentUnallocated,
    AttrUnallocated,
    Other,
}

/// A consistency-check finding: its code, severity and message.
#[derive(Debug)]
pub struct RepairIssue {
    pub code: RepairCode,
    pub severity: RepairSeverity,
    pub message: String,
}

/// What a repair writes: the patched superblock (to be written to all
/// three copies), the repaired bitmaps, which regions changed, and which
/// findings were fixed (their codes, in order) and which were left alone
/// (their indices).
#[derive(Debug)]
pub struct RepairPlan {
    pub superblock: Superblock,
    pub block_bitmap: Bitmap,
    pub inode_bitmap: Bitmap,
    pub block_bitmap_touched: bool,
    pub inode_bitmap_touched: bool,
    pub superblock_touched: bool,
    pub rewrite_tertiary: bool,
    pub rewrite_secondary: bool,
    pub fixed: Vec<RepairCode>,
    pub unfixable: Vec<usize>,
}

/// The repair's running account over the findings seen so far.
pub struct RepairTally {
    pub marked: Set<int>,
    pub cleared: Set<int>,
    pub block_bitmap_touched: bool,
    pub inode_bitmap_touched: bool,
    pub rewrite_tertiary: bool,
    pub rewrite_secondary: bool,
    pub block_crc: bool,
    pub inode_crc: bool,
    pub free_blocks: bool,
    pub free_inodes: bool,
    pub fixed: Seq<RepairCode>,
    pub unfixable: Seq<usize>,
}

/// Findings of error or warning severity are acted on.
pub open spec fn actionable(i: RepairIssue) -> bool {
    i.severity == RepairSeverity::Error || i.severity == RepairSeverity::Warning
}

/// The account after finding `i` (index `idx`): superblock-copy findings
/// ask for a rewrite of that copy; checksum and counter findings ask for a
/// recomputation; an inode marked but unused has its bit cleared when the
/// message names a slot whose bit is still set; an unallocated extent or
/// attribute block is marked when the message names a data block;
/// anything else is left alone.
pub open spec fn repair_step(t: RepairTally, i: RepairIssue, idx: usize, ibm: Bitmap, data_start: u64, total_blocks: u64) -> RepairTally {
    if !actionable(i) {
        t
    } else {
        match i.code {
            RepairCode::TertiaryStale | RepairCode::TertiaryUnreadable =>
                RepairTally { rewrite_tertiary: true, fixed: t.fixed.push(i.code), ..t },
            RepairCode::SecondaryStale | RepairCode::SecondaryUnreadable =>
                RepairTally { rewrite_secondary: true, fixed: t.fixed.push(i.code), ..t },
            RepairCode::BlockBitmapCrc => RepairTally { block_crc: true, fixed: t.fixed.push(i.code), ..t },
            RepairCode::InodeBitmapCrc => RepairTally { inode_crc: true, fixed: t.fixed.push(i.code), ..t },
            RepairCode::FreeBlocks => RepairTally { free_blocks: true, fixed: t.fixed.push(i.code), ..t },
            RepairCode::FreeInodes => RepairTally { free_inodes: true, fixed: t.fixed.push(i.code), ..t },
            RepairCode::UnusedButBitmapSet => match slot_of(vstd::utf8::encode_utf8(i.message@)) {
                Some(slot) => if slot < ibm.cap() && ibm.is_set_spec(slot as int) && !t.cleared.contains(slot as int) {
                    RepairTally {
                        cleared: t.cleared.insert(slot as int),
                        inode_bitmap_touched: true,
                        fixed: t.fixed.push(i.code),
                        ..t
                    }
                } else {
                    RepairTally { unfixable: t.unfixable.push(idx), ..t }
                },
                None => RepairTally { unfixable: t.unfixable.push(idx), ..t },
            },
            RepairCode::ExtentUnallocated | RepairCode::AttrUnallocated => match block_of(vstd::utf8::encode_utf8(i.message@)) {
                Some(b) => if data_start <= b && b < total_blocks {
                    RepairTally {
                        marked: t.marked.insert(b as int),
                        block_bitmap_touched: true,
                        fixed: t.fixed.push(i.code),
                        ..t
                    }
                } else {
                    RepairTally { unfixable: t.unfixable.push(idx), ..t }
                },
                None => RepairTally { unfixable: t.unfixable.push(idx), ..t },
            },
            RepairCode::Other => RepairTally { unfixable: t.unfixable.push(idx), ..t },
        }
    }
}

/// The account after the first `n` findings of `issues`.
pub open spec fn repair_tally(issues: Seq<RepairIssue>, n: int, ibm: Bitmap, data_start: u64, total_blocks: u64) -> RepairTally
    decreases n,
{
    if n <= 0 {
        RepairTally {
            marked: Set::empty(),
            cleared: Set::empty(),
            block_bitmap_touched: false,
            inode_bitmap_touched: false,
            rewrite_tertiary: false,
            rewrite_secondary: false,
            block_crc: false,
            inode_crc: false,
            free_blocks: false,
            free_inodes: false,
            fixed: Seq::empty(),
            unfixable: Seq::empty(),
        }
    } else {
        repair_step(repair_tally(issues, n - 1, ibm, data_start, total_blocks), issues[n - 1], (n - 1) as usize, ibm,
            data_start, total_blocks)
    }
}

/// Number of findings among the first `n` that are acted on.
pub open spec fn actionable_count(issues: Seq<RepairIssue>, n: int) -> int
    decreases n,
{
    if n <= 0 { 0 } else { actionable_count(issues, n - 1) + if actionable(issues[n - 1]) { 1int } else { 0int } }
}

/// Marked units among `lo..hi` of `bits`.
pub open spec fn count_set_range(bits: Seq<u8>, lo: int, hi: int) -> int
    decreases hi - lo,
{
    if hi <= lo { 0 } else { count_set_range(bits, lo, hi - 1) + if super::bitmap::bit_set(bits, hi - 1) { 1int } else { 0int } }
}

proof fn lemma_count_set_range_bound(bits: Seq<u8>, lo: int, hi: int)
    ensures
        0 <= count_set_range(bits, lo, hi),
        lo <= hi ==> count_set_range(bits, lo, hi) <= hi - lo,
    decreases hi - lo,
{
    if hi > lo {
        lemma_count_set_range_bound(bits, lo, hi - 1);
    }
}

proof fn lemma_count_set_bound(bits: Seq<u8>, n: int)
    ensures
        0 <= count_set(bits, n),
        0 <= n ==> count_set(bits, n) <= n,
    decreases n,
{
    if n > 0 {
        lemma_count_set_bound(bits, n - 1);
    }
}

/// Every finding acted on is either fixed or left alone, never both; every
/// finding left alone is acted on.
pub proof fn lemma_repair_partition(issues: Seq<RepairIssue>, n: int, ibm: Bitmap, data_start: u64, total_blocks: u64)
    requires
        0 <= n <= issues.len(),
        issues.len() <= usize::MAX,
    ensures
        repair_tally(issues, n, ibm, data_start, total_blocks).fixed.len()
            + repair_tally(issues, n, ibm, data_start, total_blocks).unfixable.len() == actionable_count(issues, n),
        forall|k: int| 0 <= k < repair_tally(issues, n, ibm, data_start, total_blocks).unfixable.len() ==> {
            let x = #[trigger] repair_tally(issues, n, ibm, data_start, total_blocks).unfixable[k];
            x < n && actionable(issues[x as int])
        },
    decreases n,
{
    if n > 0 {
        lemma_repair_partition(issues, n - 1, ibm, data_start, total_blocks);
    }
}

/// Some finding among the first `n` is acted on and has code `c`.
pub open spec fn has_code(issues: Seq<RepairIssue>, n: int, c: RepairCode) -> bool {
    exists|k: int| 0 <= k < n && actionable(#[trigger] issues[k]) && issues[k].code == c
}

/// The finding `issues[k]` (acted on) asks to mark block `b`.
pub open spec fn asks_mark(issues: Seq<RepairIssue>, k: int, b: int, data_start: u64, total_blocks: u64) -> bool {
    &&& actionable(issues[k])
    &&& (issues[k].code == RepairCode::ExtentUnallocated || issues[k].code == RepairCode::AttrUnallocated)
    &&& block_of(vstd::utf8::encode_utf8(issues[k].message@)) == Some(b as u64)
    &&& 0 <= b && data_start <= b < total_blocks
}

/// The finding `issues[k]` (acted on) asks to clear inode bit `x`, which is set.
pub open spec fn asks_clear(issues: Seq<RepairIssue>, k: int, x: int, ibm: Bitmap) -> bool {
    &&& actionable(issues[k])
    &&& issues[k].code == RepairCode::UnusedButBitmapSet
    &&& slot_of(vstd::utf8::encode_utf8(issues[k].message@)) == Some(x as u64)
    &&& 0 <= x < ibm.cap() && x <= u64::MAX && ibm.is_set_spec(x)
}

proof fn lemma_has_code_step(issues: Seq<RepairIssue>, n: int, c: RepairCode)
    requires
        0 < n <= issues.len(),
    ensures
        has_code(issues, n, c) <==> (has_code(issues, n - 1, c) || (actionable(issues[n - 1]) && issues[n - 1].code == c)),
{
    if has_code(issues, n, c) {
        let k = choose|k: int| 0 <= k < n && actionable(#[trigger] issues[k]) && issues[k].code == c;
        if k < n - 1 {
            assert(has_code(issues, n - 1, c));
        }
    }
    if has_code(issues, n - 1, c) {
        let k = choose|k: int| 0 <= k < n - 1 && actionable(#[trigger] issues[k]) && issues[k].code == c;
        assert(0 <= k < n && actionable(issues[k]) && issues[k].code == c);
    }
    if actionable(issues[n - 1]) && issues[n - 1].code == c {
        assert(0 <= n - 1 < n && actionable(issues[n - 1]) && issues[n - 1].code == c);
    }
}

/// Each recomputation and copy rewrite of the fix table is planned exactly
/// when a finding of its code is acted on.
#[verifier::spinoff_prover]
pub proof fn lemma_repair_flags(issues: Seq<RepairIssue>, n: int, ibm: Bitmap, data_start: u64, total_blocks: u64)
    requires
        0 <= n <= issues.len(),
    ensures
        ({
            let t = repair_tally(issues, n, ibm, data_start, total_blocks);
            &&& t.free_blocks <==> has_code(issues, n, RepairCode::FreeBlocks)
            &&& t.free_inodes <==> has_code(issues, n, RepairCode::FreeInodes)
            &&& t.block_crc <==> has_code(issues, n, RepairCode::BlockBitmapCrc)
            &&& t.inode_crc <==> has_code(issues, n, RepairCode::InodeBitmapCrc)
            &&& t.rewrite_tertiary <==> (has_code(issues, n, RepairCode::TertiaryStale)
                || has_code(issues, n, RepairCode::TertiaryUnreadable))
            &&& t.rewrite_secondary <==> (has_code(issues, n, RepairCode::SecondaryStale)
                || has_code(issues, n, RepairCode::SecondaryUnreadable))
        }),
    decreases n,
{
    if n > 0 {
        lemma_repair_flags(issues, n - 1, ibm, data_start, total_blocks);
        lemma_has_code_step(issues, n, RepairCode::FreeBlocks);
        lemma_has_code_step(issues, n, RepairCode::FreeInodes);
        lemma_has_code_step(issues, n, RepairCode::BlockBitmapCrc);
        lemma_has_code_step(issues, n, RepairCode::InodeBitmapCrc);
        lemma_has_code_step(issues, n, RepairCode::TertiaryStale);
        lemma_has_code_step(issues, n, RepairCode::TertiaryUnreadable);
        lemma_has_code_step(issues, n, RepairCode::SecondaryStale);
        lemma_has_code_step(issues, n, RepairCode::SecondaryUnreadable);
    }
}

/// A block is marked exactly when some finding acted on asks for it.
#[verifier::spinoff_prover]
pub proof fn lemma_repair_marks(issues: Seq<RepairIssue>, n: int, ibm: Bitmap, data_start: u64, total_blocks: u64)
    requires
        0 <= n <= issues.len(),
    ensures
        forall|b: int| #[trigger] repair_tally(issues, n, ibm, data_start, total_blocks).marked.contains(b)
            <==> exists|k: int| 0 <= k < n && #[trigger] asks_mark(issues, k, b, data_start, total_blocks),
    decreases n,
{
    if n > 0 {
        lemma_repair_marks(issues, n - 1, ibm, data_start, total_blocks);
        let t0 = repair_tally(issues, n - 1, ibm, data_start, total_blocks);
        let t = repair_tally(issues, n, ibm, data_start, total_blocks);
        assert forall|b: int| #[trigger] t.marked.contains(b)
            <==> exists|k: int| 0 <= k < n && #[trigger] asks_mark(issues, k, b, data_start, total_blocks) by {
            if exists|k: int| 0 <= k < n && #[trigger] asks_mark(issues, k, b, data_start, total_blocks) {
                let k = choose|k: int| 0 <= k < n && #[trigger] asks_mark(issues, k, b, data_start, total_blocks);
                if k < n - 1 {
                    assert(t0.marked.contains(b));
                }
            }
            if t0.marked.contains(b) {
                let k = choose|k: int| 0 <= k < n - 1 && #[trigger] asks_mark(issues, k, b, data_start, total_blocks);
                assert(asks_mark(issues, k, b, data_start, total_blocks));
            }
            if t.marked.contains(b) && !t0.marked.contains(b) {
                assert(asks_mark(issues, n - 1, b, data_start, total_blocks));
            }
        }
    }
}

/// An inode bit is cleared exactly when some finding acted on asks for it.
#[verifier::spinoff_prover]
pub proof fn lemma_repair_clears(issues: Seq<RepairIssue>, n: int, ibm: Bitmap, data_start: u64, total_blocks: u64)
    requires
        0 <= n <= issues.len(),
    ensures
        forall|x: int| #[trigger] repair_tally(issues, n, ibm, data_start, total_blocks).cleared.contains(x)
            <==> exists|k: int| 0 <= k < n && #[trigger] asks_clear(issues, k, x, ibm),
    decreases n,
{
    if n > 0 {
        lemma_repair_clears(issues, n - 1, ibm, data_start, total_blocks);
        let t0 = repair_tally(issues, n - 1, ibm, data_start, total_blocks);
        let t = repair_tally(issues, n, ibm, data_start, total_blocks);
        assert forall|x: int| #[trigger] t.cleared.contains(x)
            <==> exists|k: int| 0 <= k < n && #[trigger] asks_clear(issues, k, x, ibm) by {
            if exists|k: int| 0 <= k < n && #[trigger] asks_clear(issues, k, x, ibm) {
                let k = choose|k: int| 0 <= k < n && #[trigger] asks_clear(issues, k, x, ibm);
                if k < n - 1 {
                    assert(t0.cleared.contains(x));
                } else {
                    if !t0.cleared.contains(x) {
                        assert(t.cleared.contains(x));
                    }
                }
            }
            if t0.cleared.contains(x) {
                let k = choose|k: int| 0 <= k < n - 1 && #[trigger] asks_clear(issues, k, x, ibm);
                assert(asks_clear(issues, k, x, ibm));
            }
            if t.cleared.contains(x) && !t0.cleared.contains(x) {
                assert(asks_clear(issues, n - 1, x, ibm));
            }
        }
    }
}

/// Plan the repair of the findings `issues` on a volume with superblock
/// `sb`, block bitmap `block_bitmap` and inode bitmap `inode_bitmap`
/// (`now` is the time stamp of the write).  The findings of error or
/// warning severity are worked through in order (see [`repair_step`]);
/// then, where a bitmap changed, its checksum and free count are
/// recomputed from it; a checksum or free-count finding recomputes that
/// field from the bitmap; and where anything changed, the generation
/// advances and the write time is set.
pub fn plan_repair(sb: Superblock, block_bitmap: Bitmap, inode_bitmap: Bitmap, issues: &Vec<RepairIssue>, now: i64)
    -> (r: RepairPlan)
    requires
        block_bitmap.wf(),
        inode_bitmap.wf(),
        block_bitmap.cap() == sb.total_blocks,
        inode_bitmap.cap() == sb.total_inodes,
    ensures
        ({
            let g = sb_geometry(sb);
            let n = issues@.len() as int;
            let bb = r.block_bitmap.bytes();
            let ib = r.inode_bitmap.bytes();
            &&& has_code(issues@, n, RepairCode::FreeBlocks)
                ==> r.superblock.free_blocks == g.data_blocks - count_set_range(bb, g.data_start as int, g.total_blocks as int)
            &&& has_code(issues@, n, RepairCode::FreeInodes)
                ==> r.superblock.free_inodes == g.inode_count - count_set(ib, r.inode_bitmap.cap() as int)
            &&& has_code(issues@, n, RepairCode::BlockBitmapCrc) ==> r.superblock.block_bitmap_crc == crc32c_spec(bb)
            &&& has_code(issues@, n, RepairCode::InodeBitmapCrc) ==> r.superblock.inode_bitmap_crc == crc32c_spec(ib)
            &&& r.rewrite_tertiary <==> (has_code(issues@, n, RepairCode::TertiaryStale)
                || has_code(issues@, n, RepairCode::TertiaryUnreadable))
            &&& r.rewrite_secondary <==> (has_code(issues@, n, RepairCode::SecondaryStale)
                || has_code(issues@, n, RepairCode::SecondaryUnreadable))
            &&& forall|j: int| 0 <= j < bb.len() * 8 ==> #[trigger] r.block_bitmap.is_set_spec(j)
                == (block_bitmap.is_set_spec(j)
                    || exists|k: int| 0 <= k < n && #[trigger] asks_mark(issues@, k, j, g.data_start, g.total_blocks))
            &&& forall|j: int| 0 <= j < ib.len() * 8 ==> #[trigger] r.inode_bitmap.is_set_spec(j)
                == (inode_bitmap.is_set_spec(j)
                    && !exists|k: int| 0 <= k < n && #[trigger] asks_clear(issues@, k, j, inode_bitmap))
        }),
        ({
            let g = sb_geometry(sb);
            let t = repair_tally(issues@, issues@.len() as int, inode_bitmap, g.data_start, g.total_blocks);
            let bb = r.block_bitmap.bytes();
            let ib = r.inode_bitmap.bytes();
            let any = t.block_bitmap_touched || t.inode_bitmap_touched || t.block_crc || t.inode_crc
                || t.free_blocks || t.free_inodes || t.rewrite_tertiary || t.rewrite_secondary;
            &&& r.block_bitmap.wf() && r.block_bitmap.cap() == block_bitmap.cap()
            &&& bb.len() == block_bitmap.bytes().len()
            &&& forall|j: int| 0 <= j < bb.len() * 8 ==> #[trigger] r.block_bitmap.is_set_spec(j)
                == (block_bitmap.is_set_spec(j) || t.marked.contains(j))
            &&& r.inode_bitmap.wf() && r.inode_bitmap.cap() == inode_bitmap.cap()
            &&& ib.len() == inode_bitmap.bytes().len()
            &&& forall|j: int| 0 <= j < ib.len() * 8 ==> #[trigger] r.inode_bitmap.is_set_spec(j)
                == (inode_bitmap.is_set_spec(j) && !t.cleared.contains(j))
            &&& !t.block_bitmap_touched ==> bb == block_bitmap.bytes()
            &&& !t.inode_bitmap_touched ==> ib == inode_bitmap.bytes()
            &&& r.block_bitmap_touched == t.block_bitmap_touched
            &&& r.inode_bitmap_touched == t.inode_bitmap_touched
            &&& r.rewrite_tertiary == t.rewrite_tertiary
            &&& r.rewrite_secondary == t.rewrite_secondary
            &&& r.superblock_touched == (t.block_bitmap_touched || t.inode_bitmap_touched || t.block_crc
                || t.inode_crc || t.free_blocks || t.free_inodes)
            &&& r.fixed@ == t.fixed
            &&& r.unfixable@ == t.unfixable
            &&& r.superblock == (Superblock {
                block_bitmap_crc: if t.block_bitmap_touched || t.block_crc { crc32c_spec(bb) } else { sb.block_bitmap_crc },
                inode_bitmap_crc: if t.inode_bitmap_touched || t.inode_crc { crc32c_spec(ib) } else { sb.inode_bitmap_crc },
                free_blocks: if t.block_bitmap_touched || t.free_blocks {
                    (g.data_blocks - count_set_range(bb, g.data_start as int, g.total_blocks as int)) as u64
                } else {
                    sb.free_blocks
                },
                free_inodes: if t.inode_bitmap_touched || t.free_inodes {
                    (g.inode_count - count_set(ib, r.inode_bitmap.cap() as int)) as u64
                } else {
                    sb.free_inodes
                },
                generation: if any { if sb.generation == u64::MAX { u64::MAX } else { (sb.generation + 1) as u64 } } else { sb.generation },
                last_write_at: if any { now } else { sb.last_write_at },
                ..sb
            })
        }),
{
    let ghost g = sb_geometry(sb);
    let ghost ibm0 = inode_bitmap;
    proof {
        lemma_repair_flags(issues@, issues@.len() as int, inode_bitmap, sb.data_start, sb.total_blocks);
        lemma_repair_marks(issues@, issues@.len() as int, inode_bitmap, sb.data_start, sb.total_blocks);
        lemma_repair_clears(issues@, issues@.len() as int, inode_bitmap, sb.data_start, sb.total_blocks);
    }
    let data_start = sb.data_start;
    let total_blocks = sb.total_blocks;
    let mut bbm = block_bitmap;
    let mut ibm = inode_bitmap;
    let mut rewrite_tertiary = false;
    let mut rewrite_secondary = false;
    let mut bb_touched = false;
    let mut ib_touched = false;
    let mut block_crc = false;
    let mut inode_crc = false;
    let mut free_blocks = false;
    let mut free_inodes = false;
    let mut fixed: Vec<RepairCode> = Vec::new();
    let mut unfixable: Vec<usize> = Vec::new();
    let mut k: usize = 0;
    while k < issues.len()
        invariant
            k <= issues@.len(),
            data_start == g.data_start,
            total_blocks == g.total_blocks,
            bbm.wf(),
            bbm.cap() == block_bitmap.cap() == total_blocks,
            bbm.bytes().len() == block_bitmap.bytes().len(),
            ibm.wf(),
            ibm0.wf(),
            ibm.cap() == ibm0.cap(),
            ibm.bytes().len() == ibm0.bytes().len(),
            ({
                let t = repair_tally(issues@, k as int, ibm0, data_start, total_blocks);
                &&& forall|j: int| 0 <= j < bbm.bytes().len() * 8 ==> #[trigger] bbm.is_set_spec(j)
                    == (block_bitmap.is_set_spec(j) || t.marked.contains(j))
                &&& forall|j: int| 0 <= j < ibm.bytes().len() * 8 ==> #[trigger] ibm.is_set_spec(j)
                    == (ibm0.is_set_spec(j) && !t.cleared.contains(j))
                &&& forall|x: int| #[trigger] t.cleared.contains(x) ==> 0 <= x < ibm0.cap()
                &&& forall|x: int| #[trigger] t.marked.contains(x) ==> 0 <= x < total_blocks
                &&& !t.block_bitmap_touched ==> bbm.bytes() == block_bitmap.bytes()
                &&& !t.inode_bitmap_touched ==> ibm.bytes() == ibm0.bytes()
                &&& bb_touched == t.block_bitmap_touched
                &&& ib_touched == t.inode_bitmap_touched
                &&& rewrite_tertiary == t.rewrite_tertiary
                &&& rewrite_secondary == t.rewrite_secondary
                &&& block_crc == t.block_crc
                &&& inode_crc == t.inode_crc
                &&& free_blocks == t.free_blocks
                &&& free_inodes == t.free_inodes
                &&& fixed@ == t.fixed
                &&& unfixable@ == t.unfixable
            }),
        decreases issues@.len() - k,
    {
        let issue = &issues[k];
        let ghost t0 = repair_tally(issues@, k as int, ibm0, data_start, total_blocks);
        proof {
            assert(repair_tally(issues@, k + 1, ibm0, data_start, total_blocks)
                == repair_step(t0, issues@[k as int], k, ibm0, data_start, total_blocks));
        }
        let acted = match issue.severity {
            RepairSeverity::Error | RepairSeverity::Warning => true,
            RepairSeverity::Info => false,
        };
        if acted {
            match issue.code {
                RepairCode::TertiaryStale | RepairCode::TertiaryUnreadable => {
                    rewrite_tertiary = true;
                    fixed.push(issue.code);
                },
                RepairCode::SecondaryStale | RepairCode::SecondaryUnreadable => {
                    rewrite_secondary = true;
                    fixed.push(issue.code);
                },
                RepairCode::BlockBitmapCrc => {
                    block_crc = true;
                    fixed.push(issue.code);
                },
                RepairCode::InodeBitmapCrc => {
                    inode_crc = true;
                    fixed.push(issue.code);
                },
                RepairCode::FreeBlocks => {
                    free_blocks = true;
                    fixed.push(issue.code);
                },
                RepairCode::FreeInodes => {
                    free_inodes = true;
                    fixed.push(issue.code);
                },
                RepairCode::UnusedButBitmapSet => {
                    let m = issue.message.as_str();
                    proof {
                        assert(m.spec_bytes() == vstd::utf8::encode_utf8(issues@[k as int].message@));
                    }
                    match parse_slot_from_message(m) {
                        Some(slot) => {
                            proof {
                                ibm.lemma_wf();
                                ibm0.lemma_wf();
                            }
                            let set_now = match ibm.is_set(slot) {
                                Ok(b) => b,
                                Err(_) => false,
                            };
                            if set_now {
                                let ghost pre = ibm;
                                let _ = ibm.clear(slot);
                                proof {
                                    assert forall|j: int| 0 <= j < ibm.bytes().len() * 8 implies #[trigger] ibm.is_set_spec(j)
                                        == (ibm0.is_set_spec(j) && !t0.cleared.insert(slot as int).contains(j)) by {
                                        assert(ibm.is_set_spec(j) == (j != slot && pre.is_set_spec(j)));
                                    }
                                }
                                ib_touched = true;
                                fixed.push(issue.code);
                            } else {
                                unfixable.push(k);
                            }
                        },
                        None => {
                            unfixable.push(k);
                        },
                    }
                },
                RepairCode::ExtentUnallocated | RepairCode::AttrUnallocated => {
                    let m = issue.message.as_str();
                    proof {
                        assert(m.spec_bytes() == vstd::utf8::encode_utf8(issues@[k as int].message@));
                    }
                    match parse_block_from_message(m) {
                        Some(b) => {
                            if data_start <= b && b < total_blocks {
                                proof {
                                    bbm.lemma_wf();
                                }
                                let ghost pre = bbm;
                                let _ = bbm.set(b);
                                proof {
                                    assert forall|j: int| 0 <= j < bbm.bytes().len() * 8 implies #[trigger] bbm.is_set_spec(j)
                                        == (block_bitmap.is_set_spec(j) || t0.marked.insert(b as int).contains(j)) by {
                                        assert(bbm.is_set_spec(j) == (j == b || pre.is_set_spec(j)));
                                    }
                                }
                                bb_touched = true;
                                fixed.push(issue.code);
                            } else {
                                unfixable.push(k);
                            }
                        },
                        None => {
                            unfixable.push(k);
                        },
                    }
                },
                RepairCode::Other => {
                    unfixable.push(k);
                },
            }
        }
        k = k + 1;
    }
    let mut sb = sb;
    let any = bb_touched || ib_touched || block_crc || inode_crc || free_blocks || free_inodes || rewrite_tertiary
        || rewrite_secondary;
    if bb_touched || block_crc {
        sb.block_bitmap_crc = Crc32c::hash(bbm.as_bytes());
    }
    if ib_touched || inode_crc {
        sb.inode_bitmap_crc = Crc32c::hash(ibm.as_bytes());
    }
    if bb_touched || free_blocks {
        let used = count_marked_range(&bbm, data_start, total_blocks);
        let data_blocks: u64 = if total_blocks >= data_start { total_blocks - data_start } else { 0 };
        proof {
            lemma_count_set_range_bound(bbm.bytes(), data_start as int, total_blocks as int);
        }
        sb.free_blocks = data_blocks - used;
    }
    if ib_touched || free_inodes {
        let pop = ibm.popcount();
        proof {
            lemma_count_set_bound(ibm.bytes(), ibm.cap() as int);
        }
        sb.free_inodes = sb.total_inodes - pop;
    }
    if any {
        sb.generation = if sb.generation == u64::MAX { u64::MAX } else { sb.generation + 1 };
        sb.last_write_at = now;
    }
    RepairPlan {
        superblock: sb,
        block_bitmap: bbm,
        inode_bitmap: ibm,
        block_bitmap_touched: bb_touched,
        inode_bitmap_touched: ib_touched,
        superblock_touched: bb_touched || ib_touched || block_crc || inode_crc || free_blocks || free_inodes,
        rewrite_tertiary,
        rewrite_secondary,
        fixed,
        unfixable,
    }
}

/// Marked units of `bm` among `lo..hi` (`hi` at most its capacity).
fn count_marked_range(bm: &Bitmap, lo: u64, hi: u64) -> (r: u64)
    requires
        bm.wf(),
        hi <= bm.cap(),
    ensures
        r == count_set_range(bm.bytes(), lo as int, hi as int),
{
    if hi <= lo {
        return 0;
    }
    let mut n: u64 = 0;
    let mut b: u64 = lo;
    while b < hi
        invariant
            lo <= b <= hi,
            hi <= bm.cap(),
            bm.wf(),
            n == count_set_range(bm.bytes(), lo as int, b as int),
            n <= b - lo,
        decreases hi - b,
    {
        let set = match bm.is_set(b) {
            Ok(x) => x,
            Err(_) => true,
        };
        if set {
            n = n + 1;
        }
        b = b + 1;
    }
    n
}

} // verus!
