//! Deterministic operation sequences for randomised invariant checks.
//!
//! A seed-driven xorshift64 generator ([`Rng`]) drives
//! [`generate_sequence`], which produces a weighted mix of file creations,
//! overwrites, deletions, directory creations and snapshots.  The same
//! seed always gives the same sequence, so a failing run is reproduced
//! from its seed.
use vstd::prelude::*;
use vstd::utf8::encode_utf8;
use super::codec::bytes_eq;

verus! {

/// One operation of a generated sequence.
#[derive(Debug, Clone, PartialEq, Eq)]
pub enum Op {
    /// Create a file at `path` with `content`.
    CreateFile { path: String, content: Vec<u8> },
    /// Delete the file at `path`.
    DeleteFile { path: String },
    /// Replace the content of the file at `path`.
    OverwriteFile { path: String, content: Vec<u8> },
    /// Create an empty directory at `path`.
    CreateDirectory { path: String },
    /// Take a snapshot named `name`.
    CreateSnapshot { name: String },
}

/// One xorshift64 step (shifts 13, 7, 17).
pub open spec fn xorshift(x: u64) -> u64 {
    let a = x ^ (x << 13u64);
    let b = a ^ (a >> 7u64);
    b ^ (b << 17u64)
}

/// The state a generator seeded with `seed` starts from: the seed, or a
/// fixed non-zero constant for seed zero (xorshift stays at zero forever).
pub open spec fn seeded_state(seed: u64) -> u64 {
    if seed == 0 { 0xDEAD_BEEF_1234_5678 } else { seed }
}

/// Seed-driven xorshift64 generator.
pub struct Rng(pub u64);

impl Rng {
    /// Generator seeded with `seed`.
    pub fn new(seed: u64) -> (r: Self)
        ensures
            r.0 == seeded_state(seed),
            r.0 != 0,
    {
        Rng(if seed == 0 { 0xDEAD_BEEF_1234_5678 } else { seed })
    }

    /// Advance the state and return it.
    pub fn next_u64(&mut self) -> (r: u64)
        ensures
            r == xorshift(old(self).0),
            final(self).0 == r,
    {
        let mut x = self.0;
        x = x ^ (x << 13u64);
        x = x ^ (x >> 7u64);
        x = x ^ (x << 17u64);
        self.0 = x;
        x
    }

    /// Next value reduced modulo `n` (0 when `n` is 0, without advancing).
    pub fn next_range(&mut self, n: u64) -> (r: u64)
        ensures
            n == 0 ==> r == 0 && final(self).0 == old(self).0,
            n > 0 ==> r == xorshift(old(self).0) % n && final(self).0 == xorshift(old(self).0),
    {
        if n == 0 {
            return 0;
        }
        self.next_u64() % n
    }

    /// An element of `slice` picked by the next value.
    pub fn pick<'a, T>(&mut self, slice: &'a [T]) -> (r: &'a T)
        requires
            slice@.len() > 0,
        ensures
            final(self).0 == xorshift(old(self).0),
            *r == slice@[((xorshift(old(self).0) as usize) % (slice@.len() as usize)) as int],
    {
        let idx = (self.next_u64() as usize) % slice.len();
        &slice[idx]
    }
}

/// A non-zero state stays non-zero: xorshift64 never reaches zero from a
/// non-zero state.
pub proof fn lemma_xorshift_nonzero(x: u64)
    requires
        x != 0,
    ensures
        xorshift(x) != 0,
{
    let a = x ^ (x << 13u64);
    let b = a ^ (a >> 7u64);
    let c = b ^ (b << 17u64);
    assert(x != 0 ==> (x ^ (x << 13u64)) != 0) by (bit_vector);
    assert(a != 0 ==> (a ^ (a >> 7u64)) != 0) by (bit_vector);
    assert(b != 0 ==> (b ^ (b << 17u64)) != 0) by (bit_vector);
}

/// The letter `a`..`p` with index `k`.
pub open spec fn letter(k: int) -> char {
    (97 + k) as char
}

/// The decimal digit `d`.
pub open spec fn digit_char(d: int) -> char {
    (48 + d) as char
}

/// Decimal representation of `n`.
pub open spec fn dec_chars(n: nat) -> Seq<char>
    decreases n,
{
    if n < 10 { seq![digit_char(n as int)] } else { dec_chars(n / 10) + seq![digit_char((n % 10) as int)] }
}

/// `k` letters drawn from state `st`, each `a` plus the next value modulo
/// 16, and the state after them.
pub open spec fn letters_drawn(st: u64, k: nat) -> (Seq<char>, u64)
    decreases k,
{
    if k == 0 {
        (Seq::empty(), st)
    } else {
        let (s, st1) = letters_drawn(st, (k - 1) as nat);
        let x = xorshift(st1);
        (s.push(letter(((x as usize) % 16) as int)), x)
    }
}

/// The fresh file name drawn from state `st` and the state after it.
pub open spec fn name_drawn(st: u64) -> (Seq<char>, u64) {
    let (s, st1) = letters_drawn(st, 6);
    (seq!['/', 'f'] + s, st1)
}

/// `k` content bytes drawn from state `st`: byte `i` is the low byte of
/// the next value plus `i` (wrapping), and the state after them.
pub open spec fn bytes_drawn(st: u64, k: nat) -> (Seq<u8>, u64)
    decreases k,
{
    if k == 0 {
        (Seq::empty(), st)
    } else {
        let (s, st1) = bytes_drawn(st, (k - 1) as nat);
        let x = xorshift(st1);
        (s.push((((x % 256) + (k - 1)) % 256) as u8), x)
    }
}

/// Fresh content drawn from state `st` (1 to 32 bytes) and the state
/// after it.
pub open spec fn content_drawn(st: u64) -> (Seq<u8>, u64) {
    let x = xorshift(st);
    bytes_drawn(x, ((x % 32) + 1) as nat)
}

/// Letter `k` as a string.
fn letter_str(k: usize) -> (r: &'static str)
    requires
        k < 16,
    ensures
        r@ == seq![letter(k as int)],
{
    proof {
        reveal_strlit("a"); reveal_strlit("b"); reveal_strlit("c"); reveal_strlit("d");
        reveal_strlit("e"); reveal_strlit("f"); reveal_strlit("g"); reveal_strlit("h");
        reveal_strlit("i"); reveal_strlit("j"); reveal_strlit("k"); reveal_strlit("l");
        reveal_strlit("m"); reveal_strlit("n"); reveal_strlit("o"); reveal_strlit("p");
    }
    if k == 0 { "a" } else if k == 1 { "b" } else if k == 2 { "c" } else if k == 3 { "d" }
    else if k == 4 { "e" } else if k == 5 { "f" } else if k == 6 { "g" } else if k == 7 { "h" }
    else if k == 8 { "i" } else if k == 9 { "j" } else if k == 10 { "k" } else if k == 11 { "l" }
    else if k == 12 { "m" } else if k == 13 { "n" } else if k == 14 { "o" } else { "p" }
}

/// Digit `d` as a string.
fn digit_str(d: u64) -> (r: &'static str)
    requires
        d < 10,
    ensures
        r@ == seq![digit_char(d as int)],
{
    proof {
        reveal_strlit("0"); reveal_strlit("1"); reveal_strlit("2"); reveal_strlit("3"); reveal_strlit("4");
        reveal_strlit("5"); reveal_strlit("6"); reveal_strlit("7"); reveal_strlit("8"); reveal_strlit("9");
    }
    if d == 0 { "0" } else if d == 1 { "1" } else if d == 2 { "2" } else if d == 3 { "3" } else if d == 4 { "4" }
    else if d == 5 { "5" } else if d == 6 { "6" } else if d == 7 { "7" } else if d == 8 { "8" } else { "9" }
}

/// `prefix` followed by the decimal representation of `n`.
fn with_decimal(prefix: String, n: u64) -> (r: String)
    ensures
        r@ == prefix@ + dec_chars(n as nat),
    decreases n,
{
    let last = digit_str(n % 10);
    if n < 10 {
        prefix.concat(last)
    } else {
        let s = with_decimal(prefix, n / 10);
        let r = s.concat(last);
        proof {
            assert(r@ =~= prefix@ + dec_chars(n as nat));
        }
        r
    }
}

/// A path `/f` followed by six letters from `a`..`p`.
fn fresh_name(rng: &mut Rng) -> (r: String)
    ensures
        (r@, final(rng).0) == name_drawn(old(rng).0),
{
    let ghost st0 = rng.0;
    let mut s = String::from_str("/f");
    proof {
        reveal_strlit("/f");
        assert(s@ =~= seq!['/', 'f'] + letters_drawn(st0, 0).0);
    }
    let mut i: usize = 0;
    while i < 6
        invariant
            i <= 6,
            s@ == seq!['/', 'f'] + letters_drawn(st0, i as nat).0,
            rng.0 == letters_drawn(st0, i as nat).1,
        decreases 6 - i,
    {
        let k = (rng.next_u64() as usize) % 16;
        s = s.concat(letter_str(k));
        proof {
            assert(s@ =~= seq!['/', 'f'] + letters_drawn(st0, (i + 1) as nat).0);
        }
        i = i + 1;
    }
    s
}

/// Between 1 and 32 bytes, each the low byte of the next value plus its
/// position.
fn fresh_content(rng: &mut Rng) -> (r: Vec<u8>)
    ensures
        (r@, final(rng).0) == content_drawn(old(rng).0),
        1 <= r@.len() <= 32,
{
    let ghost x0 = xorshift(rng.0);
    let n = (rng.next_range(32) + 1) as usize;
    let mut out: Vec<u8> = Vec::new();
    let mut i: usize = 0;
    proof {
        assert(out@ =~= bytes_drawn(x0, 0).0);
    }
    while i < n
        invariant
            i <= n <= 32,
            n == (x0 % 32) + 1,
            out@ == bytes_drawn(x0, i as nat).0,
            rng.0 == bytes_drawn(x0, i as nat).1,
        decreases n - i,
    {
        proof {
            lemma_bytes_drawn_len(x0, i as nat);
        }
        let v = rng.next_u64() % 256;
        out.push(((v + i as u64) % 256) as u8);
        proof {
            assert(out@ =~= bytes_drawn(x0, (i + 1) as nat).0);
        }
        i = i + 1;
    }
    proof {
        lemma_bytes_drawn_len(x0, n as nat);
    }
    out
}

proof fn lemma_bytes_drawn_len(st: u64, k: nat)
    ensures
        bytes_drawn(st, k).0.len() == k,
    decreases k,
{
    if k > 0 {
        lemma_bytes_drawn_len(st, (k - 1) as nat);
    }
}

fn contains_path(paths: &Vec<String>, p: &String) -> (r: bool)
    ensures
        r == live_view(paths@).contains(p@),
{
    let mut i: usize = 0;
    while i < paths.len()
        invariant
            i <= paths@.len(),
            forall|k: int| 0 <= k < i ==> paths@[k]@ != p@,
        decreases paths@.len() - i,
    {
        if bytes_eq(paths[i].as_str().as_bytes(), p.as_str().as_bytes()) {
            proof {
                vstd::utf8::encode_utf8_decode_utf8(paths@[i as int]@);
                vstd::utf8::encode_utf8_decode_utf8(p@);
                assert(live_view(paths@)[i as int] == p@);
            }
            return true;
        }
        proof {
            vstd::utf8::encode_utf8_decode_utf8(paths@[i as int]@);
            vstd::utf8::encode_utf8_decode_utf8(p@);
        }
        i = i + 1;
    }
    proof {
        if live_view(paths@).contains(p@) {
            let k = choose|k: int| 0 <= k < live_view(paths@).len() && live_view(paths@)[k] == p@;
            assert(paths@[k]@ == p@);
        }
    }
    false
}

fn copy_string(s: &String) -> (r: String)
    ensures
        r@ == s@,
{
    String::from_str(s.as_str())
}

/// The texts of a list of strings.
pub open spec fn live_view(v: Seq<String>) -> Seq<Seq<char>> {
    v.map_values(|s: String| s@)
}

/// An operation by value: its kind (create file, delete file, overwrite
/// file, create directory, snapshot, in that order from 0), its path or
/// snapshot name, and its content.
pub open spec fn op_view(op: Op) -> (int, Seq<char>, Seq<u8>) {
    match op {
        Op::CreateFile { path, content } => (0, path@, content@),
        Op::DeleteFile { path } => (1, path@, Seq::empty()),
        Op::OverwriteFile { path, content } => (2, path@, content@),
        Op::CreateDirectory { path } => (3, path@, Seq::empty()),
        Op::CreateSnapshot { name } => (4, name@, Seq::empty()),
    }
}

/// One generation step from state `st` with live paths `live`: the
/// operation, the next state and the next live paths.
pub open spec fn gen_step(st: u64, live: Seq<Seq<char>>) -> ((int, Seq<char>, Seq<u8>), u64, Seq<Seq<char>>) {
    let x = xorshift(st);
    let choice = x % 100;
    if choice < 40 {
        let (name, st2) = name_drawn(x);
        let live2 = if live.contains(name) { live } else { live.push(name) };
        let (content, st3) = content_drawn(st2);
        ((0, name, content), st3, live2)
    } else if choice < 60 && live.len() > 0 {
        let y = xorshift(x);
        let p = live[((y as usize) % (live.len() as usize)) as int];
        let (content, st3) = content_drawn(y);
        ((2, p, content), st3, live)
    } else if choice < 75 && live.len() > 0 {
        let y = xorshift(x);
        let idx = ((y as usize) % (live.len() as usize)) as int;
        ((1, live[idx], Seq::empty()), y, live.remove(idx))
    } else if 75 <= choice < 85 {
        let y = xorshift(x);
        ((3, seq!['/', 'd'] + dec_chars((y % 1000) as nat), Seq::empty()), y, live)
    } else {
        let y = xorshift(x);
        ((4, seq!['s', 'n', 'a', 'p'] + dec_chars((y % 1000000) as nat), Seq::empty()), y, live)
    }
}

/// The first `n` operations generated from `seed`, with the state and the
/// live paths after them.
pub open spec fn gen_run(seed: u64, n: nat) -> (Seq<(int, Seq<char>, Seq<u8>)>, u64, Seq<Seq<char>>)
    decreases n,
{
    if n == 0 {
        (Seq::empty(), seeded_state(seed), Seq::empty())
    } else {
        let (ops, st, live) = gen_run(seed, (n - 1) as nat);
        let (op, st2, live2) = gen_step(st, live);
        (ops.push(op), st2, live2)
    }
}

proof fn lemma_gen_run_len(seed: u64, n: nat)
    ensures
        gen_run(seed, n).0.len() == n,
    decreases n,
{
    if n > 0 {
        lemma_gen_run_len(seed, (n - 1) as nat);
    }
}

/// A deterministic sequence of `len` operations from `seed`.  Each step
/// draws a number below 100: below 40 creates a file with a fresh name,
/// 40 to 59 overwrites a live file, 60 to 74 deletes one (both only while
/// a file is live), 75 to 84 creates a directory `/d<n>`, and the rest
/// take a snapshot `snap<n>`.
pub fn generate_sequence(seed: u64, len: usize) -> (r: Vec<Op>)
    ensures
        r@.len() == len,
        forall|i: int| 0 <= i < len ==> op_view(#[trigger] r@[i]) == gen_run(seed, len as nat).0[i],
{
    let mut rng = Rng::new(seed);
    let mut live_paths: Vec<String> = Vec::new();
    let mut out: Vec<Op> = Vec::new();
    let mut step: usize = 0;
    proof {
        assert(live_view(live_paths@) =~= Seq::<Seq<char>>::empty());
    }
    while step < len
        invariant
            step <= len,
            out@.len() == step,
            gen_run(seed, step as nat).0.len() == step,
            forall|i: int| 0 <= i < step ==> op_view(#[trigger] out@[i]) == gen_run(seed, step as nat).0[i],
            rng.0 == gen_run(seed, step as nat).1,
            live_view(live_paths@) == gen_run(seed, step as nat).2,
        decreases len - step,
    {
        let ghost st = rng.0;
        let ghost live = live_view(live_paths@);
        let ghost next = gen_step(st, live);
        let choice = rng.next_range(100);
        let op = if choice < 40 {
            let p = fresh_name(&mut rng);
            if !contains_path(&live_paths, &p) {
                live_paths.push(copy_string(&p));
                proof {
                    assert(live_view(live_paths@) =~= live.push(p@));
                }
            }
            let content = fresh_content(&mut rng);
            Op::CreateFile { path: p, content }
        } else if choice < 60 && live_paths.len() > 0 {
            let p = copy_string(rng.pick(live_paths.as_slice()));
            proof {
                let idx = ((xorshift(xorshift(st)) as usize) % (live_paths@.len() as usize)) as int;
                assert(live[idx] == live_paths@[idx]@);
            }
            let content = fresh_content(&mut rng);
            Op::OverwriteFile { path: p, content }
        } else if choice < 75 && live_paths.len() > 0 {
            let idx = (rng.next_u64() as usize) % live_paths.len();
            let ghost before = live_paths@;
            let p = live_paths.remove(idx);
            proof {
                assert(live[idx as int] == p@);
                assert(live_view(live_paths@) =~= live.remove(idx as int));
            }
            Op::DeleteFile { path: p }
        } else if 75 <= choice && choice < 85 {
            let n = rng.next_range(1000);
            proof {
                reveal_strlit("/d");
            }
            let path = with_decimal(String::from_str("/d"), n);
            Op::CreateDirectory { path }
        } else {
            let n = rng.next_range(1_000_000);
            proof {
                reveal_strlit("snap");
            }
            let name = with_decimal(String::from_str("snap"), n);
            Op::CreateSnapshot { name }
        };
        proof {
            assert(op_view(op) == next.0);
            assert(rng.0 == next.1);
            assert(live_view(live_paths@) == next.2);
        }
        let ghost prev = out@;
        out.push(op);
        proof {
            assert forall|i: int| 0 <= i < step + 1 implies op_view(#[trigger] out@[i]) == gen_run(seed, (step + 1) as nat).0[i] by {
                if i < step {
                    assert(out@[i] == prev[i]);
                }
            }
        }
        step = step + 1;
    }
    out
}

/// Generation is deterministic: the same seed and length give the same
/// operations.
pub proof fn lemma_generate_sequence_deterministic(seed: u64, len: usize, a: Seq<Op>, b: Seq<Op>)
    requires
        a.len() == len,
        b.len() == len,
        forall|i: int| 0 <= i < len ==> op_view(#[trigger] a[i]) == gen_run(seed, len as nat).0[i],
        forall|i: int| 0 <= i < len ==> op_view(#[trigger] b[i]) == gen_run(seed, len as nat).0[i],
    ensures
        forall|i: int| 0 <= i < len ==> op_view(#[trigger] a[i]) == op_view(b[i]),
{
}

} // verus!
