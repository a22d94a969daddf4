use vstd::prelude::*;
use vstd::utf8::{decode_utf8, encode_utf8, valid_utf8};
use crate::messages::input::challenges::recover_secret_input::RecoverSecretInput;
use crate::messages::output::challenges::recover_secret_output::RecoverSecretOutput;
use crate::text::{string_from_chars, string_from_utf8};
use vstd::slice::slice_to_vec;
use vstd::string::StrSliceExecFns;

verus! {

/// The recover-secret solver: it orders the distinct letters so that each
/// tuple's letters come in the tuple's order.
pub struct RecoverSecret {
    pub input: RecoverSecretInput,
}

/// The first position of `c` in `s`, or `s.len()` when it does not occur.
pub open spec fn position(s: Seq<u8>, c: u8) -> int
    decreases s.len(),
{
    if s.len() == 0 {
        0
    } else if s[0] == c {
        0
    } else {
        1 + position(s.drop_first(), c)
    }
}

/// `s` with the characters at `i` and `j` exchanged.
pub open spec fn swap(s: Seq<u8>, i: int, j: int) -> Seq<u8> {
    s.update(i, s[j]).update(j, s[i])
}

/// One letter of a tuple. The state is the current order, the position of
/// the previous letter of the tuple, and whether the order changed. A letter
/// found before that position is swapped with the letter there.
pub open spec fn place_letter(st: (Seq<u8>, int, bool), c: u8) -> (Seq<u8>, int, bool) {
    let (s, cnt, changed) = st;
    let k = position(s, c);
    if k >= s.len() {
        st
    } else if cnt > k {
        (swap(s, k, cnt), cnt, true)
    } else {
        (s, k, changed)
    }
}

/// The letters of `letters` placed in turn.
pub open spec fn place_letters(st: (Seq<u8>, int, bool), letters: Seq<u8>) -> (
    Seq<u8>,
    int,
    bool,
)
    decreases letters.len(),
{
    if letters.len() == 0 {
        st
    } else {
        place_letter(place_letters(st, letters.drop_last()), letters.last())
    }
}

/// The sum of the first `i` tuple sizes.
pub open spec fn tuple_offset(sizes: Seq<usize>, i: int) -> int
    decreases i,
{
    if i <= 0 {
        0
    } else {
        tuple_offset(sizes, i - 1) + sizes[i - 1]
    }
}

/// The letters of tuple `i`.
pub open spec fn tuple_letters(letters: Seq<u8>, sizes: Seq<usize>, i: int) -> Seq<u8> {
    letters.subrange(tuple_offset(sizes, i), tuple_offset(sizes, i) + sizes[i])
}

/// The order after the first `i` tuples of a pass, and whether it changed.
pub open spec fn pass_upto(s: Seq<u8>, letters: Seq<u8>, sizes: Seq<usize>, i: int) -> (
    Seq<u8>,
    bool,
)
    decreases i,
{
    if i <= 0 {
        (s, false)
    } else {
        let prev = pass_upto(s, letters, sizes, i - 1);
        let r = place_letters((prev.0, 0, prev.1), tuple_letters(letters, sizes, i - 1));
        (r.0, r.2)
    }
}

/// One pass over all the tuples.
pub open spec fn pass(s: Seq<u8>, letters: Seq<u8>, sizes: Seq<usize>) -> (Seq<u8>, bool) {
    pass_upto(s, letters, sizes, sizes.len() as int)
}

/// The order after `n` passes from `s`.
pub open spec fn passes(s: Seq<u8>, letters: Seq<u8>, sizes: Seq<usize>, n: nat) -> Seq<u8>
    decreases n,
{
    if n == 0 {
        s
    } else {
        pass(passes(s, letters, sizes, (n - 1) as nat), letters, sizes).0
    }
}

/// The pass after `n` passes changes nothing.
#[verifier::opaque]
pub open spec fn settled_after(s: Seq<u8>, letters: Seq<u8>, sizes: Seq<usize>, n: nat) -> bool {
    !pass(passes(s, letters, sizes, n), letters, sizes).1
}

/// The passes from `s` come to an order that one more pass leaves as it is.
pub open spec fn settles(s: Seq<u8>, letters: Seq<u8>, sizes: Seq<usize>) -> bool {
    exists|n: nat| settled_after(s, letters, sizes, n)
}

/// The number of passes after which the order no longer changes.
pub open spec fn settle_count(s: Seq<u8>, letters: Seq<u8>, sizes: Seq<usize>) -> nat {
    choose|n: nat|
        settled_after(s, letters, sizes, n) && forall|m: nat|
            m < n ==> !#[trigger] settled_after(s, letters, sizes, m)
}

/// The characters the solver starts from: each byte of the letters, read
/// as the character of that number, kept unless the UTF-8 bytes of the
/// characters kept so far already hold that byte.
pub open spec fn start_chars(bytes: Seq<u8>) -> Seq<char>
    decreases bytes.len(),
{
    if bytes.len() == 0 {
        seq![]
    } else {
        let rest = start_chars(bytes.drop_last());
        if encode_utf8(rest).contains(bytes.last()) {
            rest
        } else {
            rest.push(bytes.last() as char)
        }
    }
}

/// The bytes the solver reorders: the UTF-8 bytes of the start characters.
pub open spec fn start_bytes(letters: Seq<char>) -> Seq<u8> {
    encode_utf8(start_chars(encode_utf8(letters)))
}

/// The bytes of the secret: the start bytes, reordered pass after pass,
/// byte by byte, until the order settles.
pub open spec fn secret_bytes(letters: Seq<char>, sizes: Seq<usize>) -> Seq<u8> {
    let l = encode_utf8(letters);
    let start = start_bytes(letters);
    passes(start, l, sizes, settle_count(start, l, sizes))
}

/// The secret: the characters its bytes encode.
pub open spec fn recovered_secret(letters: Seq<char>, sizes: Seq<usize>) -> Seq<char> {
    decode_utf8(secret_bytes(letters, sizes))
}

/// After each letter of `letters` the order is valid UTF-8 (a swap that
/// breaks a character is where the solver stops with an error).
pub open spec fn letters_valid(st: (Seq<u8>, int, bool), letters: Seq<u8>) -> bool
    decreases letters.len(),
{
    letters.len() == 0 || (letters_valid(st, letters.drop_last()) && valid_utf8(place_letters(st, letters).0))
}

/// Every state of the first `i` tuples of a pass is valid UTF-8.
pub open spec fn pass_valid(s: Seq<u8>, letters: Seq<u8>, sizes: Seq<usize>, i: int) -> bool
    decreases i,
{
    i <= 0 || ({
        let prev = pass_upto(s, letters, sizes, i - 1);
        pass_valid(s, letters, sizes, i - 1) && letters_valid((prev.0, 0, prev.1), tuple_letters(letters, sizes, i - 1))
    })
}

/// Every state of the first `n` passes is valid UTF-8.
pub open spec fn passes_valid(s: Seq<u8>, letters: Seq<u8>, sizes: Seq<usize>, n: nat) -> bool
    decreases n,
{
    n == 0 || (passes_valid(s, letters, sizes, (n - 1) as nat) && pass_valid(
        passes(s, letters, sizes, (n - 1) as nat),
        letters,
        sizes,
        sizes.len() as int,
    ))
}

/// The tuple sizes fit the letters: every tuple lies inside them.
pub open spec fn sizes_fit(letters: Seq<u8>, sizes: Seq<usize>) -> bool {
    tuple_offset(sizes, sizes.len() as int) <= letters.len()
}

proof fn lemma_offset_monotone(sizes: Seq<usize>, i: int, j: int)
    requires
        0 <= i <= j <= sizes.len(),
    ensures
        tuple_offset(sizes, i) <= tuple_offset(sizes, j),
    decreases j - i,
{
    if i < j {
        lemma_offset_monotone(sizes, i, j - 1);
    }
}

proof fn lemma_least_settle(s: Seq<u8>, letters: Seq<u8>, sizes: Seq<usize>, n: nat)
    requires
        settled_after(s, letters, sizes, n),
        forall|m: nat| m < n ==> !#[trigger] settled_after(s, letters, sizes, m),
    ensures
        settle_count(s, letters, sizes) == n,
{
    let c = settle_count(s, letters, sizes);
    assert(settled_after(s, letters, sizes, c) && forall|m: nat|
        m < c ==> !#[trigger] settled_after(s, letters, sizes, m));
    if c < n {
        assert(!settled_after(s, letters, sizes, c));
    } else if c > n {
        assert(!settled_after(s, letters, sizes, n));
    }
}

/// The challenge can be solved: the tuples lie inside the bytes of the
/// letters, the passes settle, and no swap breaks a character.
pub open spec fn recover_solvable(input: RecoverSecretInput) -> bool {
    let l = encode_utf8(input.letters@);
    let start = start_bytes(input.letters@);
    &&& sizes_fit(l, input.tuple_sizes@)
    &&& settles(start, l, input.tuple_sizes@)
    &&& passes_valid(start, l, input.tuple_sizes@, settle_count(start, l, input.tuple_sizes@) + 1)
}

/// `out` holds the recovered secret.
pub open spec fn recover_answer(input: RecoverSecretInput, out: RecoverSecretOutput) -> bool {
    out.secret_sentence@ == recovered_secret(input.letters@, input.tuple_sizes@)
}

impl RecoverSecret {
    /// The name of the challenge.
    pub fn name() -> (name: String)
        ensures
            name@ == "Recover Secret"@,
    {
        String::from_str("Recover Secret")
    }

    /// A solver for the given challenge input.
    pub fn new(input: RecoverSecretInput) -> (solver: Self)
        ensures
            solver.input == input,
    {
        RecoverSecret { input }
    }

    /// Solves the challenge: the secret recovered from the tuples.
    pub fn solve(&self) -> (out: RecoverSecretOutput)
        requires
            recover_solvable(self.input),
        ensures
            recover_answer(self.input, out),
    {
        RecoverSecretOutput { secret_sentence: self.switch() }
    }

    /// The characters the solver starts from (see `start_chars`): each byte
    /// of the letters, as the character of that number, unless the string
    /// built so far already holds that byte.
    pub fn create_string_with_all_letters(&self) -> (s: String)
        ensures
            s@ == start_chars(encode_utf8(self.input.letters@)),
    {
        let bytes = self.input.letters.as_str().as_bytes();
        let mut chars: Vec<char> = Vec::new();
        let mut i: usize = 0;
        while i < bytes.len()
            invariant
                bytes@ == encode_utf8(self.input.letters@),
                i <= bytes.len(),
                chars@ == start_chars(bytes@.subrange(0, i as int)),
            decreases bytes.len() - i,
        {
            let current = string_from_chars(&chars);
            let held = current.as_str().as_bytes();
            let mut j: usize = 0;
            while j < held.len() && held[j] != bytes[i]
                invariant
                    i < bytes.len(),
                    j <= held.len(),
                    forall|k: int| 0 <= k < j ==> held@[k] != bytes@[i as int],
                decreases held.len() - j,
            {
                j = j + 1;
            }
            let found = j < held.len();
            assert(bytes@.subrange(0, i + 1).drop_last() =~= bytes@.subrange(0, i as int));
            assert(held@ == encode_utf8(chars@));
            if !found {
                assert(!held@.contains(bytes@[i as int]));
                chars.push(bytes[i] as char);
            } else {
                assert(held@.contains(bytes@[i as int]));
            }
            i = i + 1;
        }
        assert(bytes@.subrange(0, bytes.len() as int) =~= bytes@);
        string_from_chars(&chars)
    }

    /// Reorders the bytes of the start characters pass after pass: in each
    /// tuple, a letter's byte found before the previous letter's byte of the
    /// tuple is swapped with it. Stops after the first pass that changes
    /// nothing.
    pub fn switch(&self) -> (secret: String)
        requires
            recover_solvable(self.input),
        ensures
            secret@ == recovered_secret(self.input.letters@, self.input.tuple_sizes@),
    {
        match self.switch_checked() {
            Some(t) => t,
            None => {
                assert(false);
                String::new()
            },
        }
    }

    /// The reordering of `switch`, or `None` where a swap breaks a
    /// character of the secret (where the client stops with an error).
    pub fn switch_checked(&self) -> (secret: Option<String>)
        requires
            sizes_fit(encode_utf8(self.input.letters@), self.input.tuple_sizes@),
            settles(start_bytes(self.input.letters@), encode_utf8(self.input.letters@), self.input.tuple_sizes@),
        ensures
            secret is Some <==> recover_solvable(self.input),
            secret matches Some(t) ==> t@ == recovered_secret(self.input.letters@, self.input.tuple_sizes@),
    {
        let letters = slice_to_vec(self.input.letters.as_str().as_bytes());
        let all = self.create_string_with_all_letters();
        let mut s_return = slice_to_vec(all.as_str().as_bytes());
        let ghost l = encode_utf8(self.input.letters@);
        let ghost start = s_return@;
        let ghost sizes = self.input.tuple_sizes@;
        assert(start == start_bytes(self.input.letters@));
        proof {
            vstd::utf8::encode_utf8_valid_utf8(start_chars(l));
        }
        let ok = settle(&mut s_return, &letters, &self.input.tuple_sizes);
        if !ok {
            return None;
        }
        proof {
            let n = settle_count(start, l, sizes);
            lemma_passes_valid(start, l, sizes, n + 1);
            reveal(settled_after);
            assert(settled_after(start, l, sizes, n)) by {
                let w = choose|m: nat| settled_after(start, l, sizes, m);
                lemma_least_exists(start, l, sizes, w);
            }
            lemma_pass_unchanged(passes(start, l, sizes, n), l, sizes, sizes.len() as int);
            assert(passes(start, l, sizes, (n + 1) as nat) == passes(start, l, sizes, n));
        }
        match string_from_utf8(s_return) {
            Some(t) => {
                proof {
                    vstd::utf8::encode_utf8_decode_utf8(t@);
                }
                Some(t)
            },
            None => {
                assert(false);
                None
            },
        }
    }
}

proof fn lemma_letters_valid(st: (Seq<u8>, int, bool), letters: Seq<u8>)
    requires
        valid_utf8(st.0),
        letters_valid(st, letters),
    ensures
        valid_utf8(place_letters(st, letters).0),
{
}

proof fn lemma_pass_valid(s: Seq<u8>, letters: Seq<u8>, sizes: Seq<usize>, i: int)
    requires
        valid_utf8(s),
        pass_valid(s, letters, sizes, i),
    ensures
        valid_utf8(pass_upto(s, letters, sizes, i).0),
    decreases i,
{
    if i > 0 {
        lemma_pass_valid(s, letters, sizes, i - 1);
        let prev = pass_upto(s, letters, sizes, i - 1);
        lemma_letters_valid((prev.0, 0, prev.1), tuple_letters(letters, sizes, i - 1));
    }
}

proof fn lemma_passes_valid(s: Seq<u8>, letters: Seq<u8>, sizes: Seq<usize>, n: nat)
    requires
        valid_utf8(s),
        passes_valid(s, letters, sizes, n),
    ensures
        valid_utf8(passes(s, letters, sizes, n)),
    decreases n,
{
    if n > 0 {
        lemma_passes_valid(s, letters, sizes, (n - 1) as nat);
        lemma_pass_valid(passes(s, letters, sizes, (n - 1) as nat), letters, sizes, sizes.len() as int);
    }
}

proof fn lemma_passes_valid_step(s: Seq<u8>, letters: Seq<u8>, sizes: Seq<usize>, n: nat)
    ensures
        passes_valid(s, letters, sizes, n + 1) == (passes_valid(s, letters, sizes, n) && pass_valid(
            passes(s, letters, sizes, n),
            letters,
            sizes,
            sizes.len() as int,
        )),
{
}

/// Passes over the tuples until one changes nothing; also tells whether
/// every order reached was valid UTF-8 (as the client checks after each
/// swap).
#[verifier::spinoff_prover]
fn settle(s: &mut Vec<u8>, letters: &Vec<u8>, sizes: &Vec<usize>) -> (ok: bool)
    requires
        sizes_fit(letters@, sizes@),
        settles(old(s)@, letters@, sizes@),
    ensures
        final(s)@ == passes(old(s)@, letters@, sizes@, settle_count(old(s)@, letters@, sizes@)),
        valid_utf8(old(s)@) ==> (ok <==> passes_valid(
            old(s)@,
            letters@,
            sizes@,
            settle_count(old(s)@, letters@, sizes@) + 1,
        )),
{
    let ghost start = s@;
    let ghost bound = choose|n: nat| settled_after(start, letters@, sizes@, n);
    let ghost mut round: nat = 0;
    let mut ok = true;
    loop
        invariant_except_break
            sizes_fit(letters@, sizes@),
            settled_after(start, letters@, sizes@, bound),
            round <= bound,
            s@ == passes(start, letters@, sizes@, round),
            forall|m: nat| m < round ==> !#[trigger] settled_after(start, letters@, sizes@, m),
            valid_utf8(start) ==> (ok <==> passes_valid(start, letters@, sizes@, round)),
            valid_utf8(start) && ok ==> valid_utf8(s@),
        ensures
            s@ == passes(start, letters@, sizes@, settle_count(start, letters@, sizes@)),
            valid_utf8(start) ==> (ok <==> passes_valid(start, letters@, sizes@, settle_count(start, letters@, sizes@) + 1)),
        decreases bound - round,
    {
        let ghost before = s@;
        let ghost ok_before = ok;
        let (changed, pass_ok) = one_pass(s, letters, sizes);
        ok = ok && pass_ok;
        proof {
            lemma_passes_valid_step(start, letters@, sizes@, round);
            assert(valid_utf8(start) ==> (ok <==> passes_valid(start, letters@, sizes@, round + 1)));
        }
        if !changed {
            proof {
                lemma_pass_unchanged(before, letters@, sizes@, sizes@.len() as int);
                reveal(settled_after);
                lemma_least_settle(start, letters@, sizes@, round);
            }
            break;
        }
        proof {
            reveal(settled_after);
            assert(!settled_after(start, letters@, sizes@, round));
            if round == bound {
                assert(false);
            }
            round = round + 1;
        }
    }
    ok
}

/// The bytes are valid UTF-8.
fn utf8_ok(s: &Vec<u8>) -> (ok: bool)
    ensures
        ok == valid_utf8(s@),
{
    let copy = slice_to_vec(s.as_slice());
    string_from_utf8(copy).is_some()
}

/// One letter of a tuple placed in `s` (see `place_letter`); also tells
/// whether a swap it made left valid UTF-8.
fn place_one(s: &mut Vec<u8>, cnt: usize, changed: bool, c: u8) -> (r: (usize, bool, bool))
    requires
        cnt < old(s).len() || cnt == 0,
    ensures
        (final(s)@, r.0 as int, r.1) == place_letter((old(s)@, cnt as int, changed), c),
        r.0 < final(s).len() || r.0 == 0,
        valid_utf8(old(s)@) ==> (r.2 <==> valid_utf8(final(s)@)),
{
    let mut k: usize = 0;
    while k < s.len() && s[k] != c
        invariant
            k <= s.len(),
            forall|m: int| 0 <= m < k ==> s@[m] != c,
        decreases s.len() - k,
    {
        k = k + 1;
    }
    proof {
        lemma_position_is_first(s@, c, k as int);
    }
    if k < s.len() {
        if cnt > k {
            let char_swap = s[k];
            let other = s[cnt];
            s.set(k, other);
            s.set(cnt, char_swap);
            let ok = utf8_ok(s);
            (cnt, true, ok)
        } else {
            (k, changed, true)
        }
    } else {
        (cnt, changed, true)
    }
}

/// The letters `letters[start .. start + size]` placed in turn in `s`,
/// from position 0; returns whether `s` changed (or `changed` already held),
/// and whether every order reached was valid UTF-8.
fn place_tuple(s: &mut Vec<u8>, letters: &Vec<u8>, start: usize, size: usize, changed: bool) -> (r: (bool, bool))
    requires
        start + size <= letters.len(),
    ensures
        (final(s)@, r.0) == ({
            let p = place_letters((old(s)@, 0, changed), letters@.subrange(start as int, start + size));
            (p.0, p.2)
        }),
        valid_utf8(old(s)@) ==> (r.1 <==> letters_valid(
            (old(s)@, 0, changed),
            letters@.subrange(start as int, start + size),
        )),
        valid_utf8(old(s)@) && r.1 ==> valid_utf8(final(s)@),
{
    let ghost s0 = s@;
    let mut cnt: usize = 0;
    let mut ch = changed;
    let mut ok = true;
    let mut j: usize = 0;
    while j < size
        invariant
            start + size <= letters.len(),
            j <= size,
            cnt < s.len() || cnt == 0,
            (s@, cnt as int, ch) == place_letters(
                (s0, 0, changed),
                letters@.subrange(start as int, start + j),
            ),
            valid_utf8(s0) ==> (ok <==> letters_valid((s0, 0, changed), letters@.subrange(start as int, start + j))),
            valid_utf8(s0) && ok ==> valid_utf8(s@),
        decreases size - j,
    {
        let c = letters[start + j];
        let (next_cnt, next_ch, step_ok) = place_one(s, cnt, ch, c);
        ok = ok && step_ok;
        cnt = next_cnt;
        ch = next_ch;
        assert(letters@.subrange(start as int, start + j + 1).drop_last() =~= letters@.subrange(
            start as int,
            start + j,
        ));
        j = j + 1;
    }
    (ch, ok)
}

/// One pass over all the tuples; returns whether `s` changed, and whether
/// every order reached was valid UTF-8.
fn one_pass(s: &mut Vec<u8>, letters: &Vec<u8>, sizes: &Vec<usize>) -> (r: (bool, bool))
    requires
        sizes_fit(letters@, sizes@),
    ensures
        (final(s)@, r.0) == pass(old(s)@, letters@, sizes@),
        valid_utf8(old(s)@) ==> (r.1 <==> pass_valid(old(s)@, letters@, sizes@, sizes@.len() as int)),
        valid_utf8(old(s)@) && r.1 ==> valid_utf8(final(s)@),
{
    let ghost s0 = s@;
    let mut ended = true;
    let mut ok = true;
    let mut letters_index: usize = 0;
    let mut i: usize = 0;
    while i < sizes.len()
        invariant
            sizes_fit(letters@, sizes@),
            i <= sizes@.len(),
            letters_index == tuple_offset(sizes@, i as int),
            (s@, !ended) == pass_upto(s0, letters@, sizes@, i as int),
            valid_utf8(s0) ==> (ok <==> pass_valid(s0, letters@, sizes@, i as int)),
            valid_utf8(s0) && ok ==> valid_utf8(s@),
        decreases sizes.len() - i,
    {
        proof {
            lemma_offset_monotone(sizes@, i + 1, sizes@.len() as int);
        }
        let size = sizes[i];
        assert(tuple_offset(sizes@, i + 1) == letters_index + size);
        assert(letters@.len() == letters.len());
        let (ch, tuple_ok) = place_tuple(s, letters, letters_index, size, !ended);
        ok = ok && tuple_ok;
        ended = !ch;
        letters_index = letters_index + size;
        i = i + 1;
    }
    (!ended, ok)
}

proof fn lemma_place_unchanged(st: (Seq<u8>, int, bool), letters: Seq<u8>)
    requires
        !place_letters(st, letters).2,
    ensures
        place_letters(st, letters).0 == st.0,
        !st.2,
    decreases letters.len(),
{
    if letters.len() > 0 {
        lemma_place_unchanged(st, letters.drop_last());
    }
}

proof fn lemma_pass_unchanged(s: Seq<u8>, letters: Seq<u8>, sizes: Seq<usize>, i: int)
    requires
        !pass_upto(s, letters, sizes, i).1,
    ensures
        pass_upto(s, letters, sizes, i).0 == s,
    decreases i,
{
    if i > 0 {
        let prev = pass_upto(s, letters, sizes, i - 1);
        lemma_place_unchanged((prev.0, 0, prev.1), tuple_letters(letters, sizes, i - 1));
        lemma_pass_unchanged(s, letters, sizes, i - 1);
    }
}

proof fn lemma_position_is_first(s: Seq<u8>, c: u8, k: int)
    requires
        0 <= k <= s.len(),
        forall|m: int| 0 <= m < k ==> s[m] != c,
        k < s.len() ==> s[k] == c,
    ensures
        position(s, c) == k,
    decreases s.len(),
{
    if s.len() > 0 && k > 0 {
        assert forall|m: int| 0 <= m < k - 1 implies s.drop_first()[m] != c by {
            assert(s[m + 1] != c);
        }
        lemma_position_is_first(s.drop_first(), c, k - 1);
    }
}


// ---------------------------------------------------------------------------
// What the recovered secret is: each letter once, every tuple in order.
// ---------------------------------------------------------------------------

/// `s` holds each of its letters once, and exactly the letters of `letters`.
pub open spec fn same_letters_once(s: Seq<u8>, letters: Seq<u8>) -> bool {
    &&& s.no_duplicates()
    &&& forall|c: u8| s.contains(c) <==> letters.contains(c)
}

/// The state of a tuple's placement is sound: the order holds each letter
/// once and the previous position lies in it (or is 0).
pub open spec fn place_state_ok(st: (Seq<u8>, int, bool)) -> bool {
    &&& st.0.no_duplicates()
    &&& (st.1 == 0 || 0 <= st.1 < st.0.len())
}

proof fn lemma_swap_keeps(s: Seq<u8>, i: int, j: int)
    requires
        0 <= i < s.len(),
        0 <= j < s.len(),
        s.no_duplicates(),
    ensures
        swap(s, i, j).no_duplicates(),
        swap(s, i, j).len() == s.len(),
        forall|c: u8| swap(s, i, j).contains(c) <==> s.contains(c),
{
    let t = swap(s, i, j);
    let f = |k: int| if k == i {
        j
    } else if k == j {
        i
    } else {
        k
    };
    assert forall|k: int| 0 <= k < t.len() implies t[k] == s[f(k)] by {}
    assert forall|a: int, b: int| 0 <= a < t.len() && 0 <= b < t.len() && a != b implies t[a] != t[b] by {
        assert(t[a] == s[f(a)]);
        assert(t[b] == s[f(b)]);
    }
    assert forall|c: u8| t.contains(c) <==> s.contains(c) by {
        if t.contains(c) {
            let k = choose|k: int| 0 <= k < t.len() && t[k] == c;
            assert(s[f(k)] == c);
        }
        if s.contains(c) {
            let k = choose|k: int| 0 <= k < s.len() && s[k] == c;
            assert(t[f(k)] == c);
        }
    }
}

proof fn lemma_position_bound(s: Seq<u8>, c: u8)
    ensures
        0 <= position(s, c) <= s.len(),
        position(s, c) < s.len() ==> s[position(s, c)] == c,
        s.contains(c) ==> position(s, c) < s.len(),
    decreases s.len(),
{
    if s.len() > 0 && s[0] != c {
        lemma_position_bound(s.drop_first(), c);
        if s.contains(c) {
            let i = choose|i: int| 0 <= i < s.len() && s[i] == c;
            assert(s.drop_first()[i - 1] == c);
        }
    }
}

proof fn lemma_place_keeps(st: (Seq<u8>, int, bool), letters: Seq<u8>)
    requires
        place_state_ok(st),
    ensures
        place_state_ok(place_letters(st, letters)),
        place_letters(st, letters).0.len() == st.0.len(),
        forall|c: u8| place_letters(st, letters).0.contains(c) <==> st.0.contains(c),
        st.2 ==> place_letters(st, letters).2,
    decreases letters.len(),
{
    if letters.len() > 0 {
        lemma_place_keeps(st, letters.drop_last());
        let p = place_letters(st, letters.drop_last());
        let c = letters.last();
        lemma_position_bound(p.0, c);
        let k = position(p.0, c);
        if k < p.0.len() && p.1 > k {
            lemma_swap_keeps(p.0, k, p.1);
        }
    }
}

proof fn lemma_pass_keeps(s: Seq<u8>, letters: Seq<u8>, sizes: Seq<usize>, i: int)
    requires
        s.no_duplicates(),
    ensures
        pass_upto(s, letters, sizes, i).0.no_duplicates(),
        pass_upto(s, letters, sizes, i).0.len() == s.len(),
        forall|c: u8| pass_upto(s, letters, sizes, i).0.contains(c) <==> s.contains(c),
    decreases i,
{
    if i > 0 {
        lemma_pass_keeps(s, letters, sizes, i - 1);
        let prev = pass_upto(s, letters, sizes, i - 1);
        lemma_place_keeps((prev.0, 0, prev.1), tuple_letters(letters, sizes, i - 1));
    }
}

proof fn lemma_passes_keep(s: Seq<u8>, letters: Seq<u8>, sizes: Seq<usize>, n: nat)
    requires
        s.no_duplicates(),
    ensures
        passes(s, letters, sizes, n).no_duplicates(),
        forall|c: u8| passes(s, letters, sizes, n).contains(c) <==> s.contains(c),
    decreases n,
{
    if n > 0 {
        lemma_passes_keep(s, letters, sizes, (n - 1) as nat);
        lemma_pass_keeps(passes(s, letters, sizes, (n - 1) as nat), letters, sizes, sizes.len() as int);
    }
}

/// The secret's bytes are the start bytes reordered: the same bytes, and,
/// when the start bytes hold each byte once (as they do for ASCII letters),
/// each of them exactly once.
pub proof fn lemma_secret_letters(letters: Seq<char>, sizes: Seq<usize>)
    requires
        start_bytes(letters).no_duplicates(),
    ensures
        same_letters_once(secret_bytes(letters, sizes), start_bytes(letters)),
        secret_bytes(letters, sizes).len() == start_bytes(letters).len(),
{
    let l = encode_utf8(letters);
    let start = start_bytes(letters);
    let n = settle_count(start, l, sizes);
    lemma_passes_keep(start, l, sizes, n);
    lemma_passes_len(start, l, sizes, n);
}

proof fn lemma_passes_len(s: Seq<u8>, letters: Seq<u8>, sizes: Seq<usize>, n: nat)
    requires
        s.no_duplicates(),
    ensures
        passes(s, letters, sizes, n).len() == s.len(),
    decreases n,
{
    if n > 0 {
        lemma_passes_len(s, letters, sizes, (n - 1) as nat);
        lemma_passes_keep(s, letters, sizes, (n - 1) as nat);
        lemma_pass_keeps(passes(s, letters, sizes, (n - 1) as nat), letters, sizes, sizes.len() as int);
    }
}

proof fn lemma_place_no_change(s: Seq<u8>, c0: int, letters: Seq<u8>)
    requires
        !place_letters((s, c0, false), letters).2,
        forall|j: int| 0 <= j < letters.len() ==> s.contains(#[trigger] letters[j]),
    ensures
        letters.len() == 0 ==> place_letters((s, c0, false), letters).1 == c0,
        letters.len() > 0 ==> place_letters((s, c0, false), letters).1 == position(s, letters.last()),
        letters.len() > 0 ==> c0 <= position(s, letters[0]),
        forall|j: int|
            0 <= j < letters.len() - 1 ==> position(s, #[trigger] letters[j]) <= position(s, letters[j + 1]),
    decreases letters.len(),
{
    if letters.len() > 0 {
        let init = letters.drop_last();
        let p = place_letters((s, c0, false), init);
        if p.2 {
            lemma_place_true_stays(p, letters.last());
        }
        assert forall|j: int| 0 <= j < init.len() implies s.contains(#[trigger] init[j]) by {
            assert(init[j] == letters[j]);
        }
        lemma_place_no_change(s, c0, init);
        lemma_place_unchanged((s, c0, false), init);
        let c = letters.last();
        assert(s.contains(letters[letters.len() - 1]));
        lemma_position_bound(s, c);
        assert forall|j: int| 0 <= j < letters.len() - 1 implies position(s, #[trigger] letters[j]) <= position(
            s,
            letters[j + 1],
        ) by {
            if j < letters.len() - 2 {
                assert(init[j] == letters[j]);
                assert(init[j + 1] == letters[j + 1]);
            } else {
                assert(init.last() == letters[j]);
            }
        }
        if init.len() > 0 {
            assert(init[0] == letters[0]);
        }
    }
}

proof fn lemma_flag_stays(st: (Seq<u8>, int, bool), letters: Seq<u8>)
    requires
        st.2,
    ensures
        place_letters(st, letters).2,
    decreases letters.len(),
{
    if letters.len() > 0 {
        lemma_flag_stays(st, letters.drop_last());
    }
}

proof fn lemma_place_true_stays(st: (Seq<u8>, int, bool), c: u8)
    requires
        st.2,
    ensures
        place_letter(st, c).2,
{
}

proof fn lemma_pass_no_change(s: Seq<u8>, letters: Seq<u8>, sizes: Seq<usize>, i: int)
    requires
        0 <= i <= sizes.len(),
        sizes_fit(letters, sizes),
        !pass_upto(s, letters, sizes, i).1,
        forall|c: u8| letters.contains(c) ==> s.contains(c),
    ensures
        forall|t: int, j: int|
            0 <= t < i && 0 <= j < sizes[t] - 1 ==> position(s, #[trigger] tuple_letters(letters, sizes, t)[j])
                <= position(s, tuple_letters(letters, sizes, t)[j + 1]),
    decreases i,
{
    if i > 0 {
        let prev = pass_upto(s, letters, sizes, i - 1);
        let tl = tuple_letters(letters, sizes, i - 1);
        if prev.1 {
            lemma_flag_stays((prev.0, 0, prev.1), tl);
        }
        lemma_pass_no_change(s, letters, sizes, i - 1);
        lemma_pass_unchanged(s, letters, sizes, i - 1);
        lemma_offset_monotone(sizes, i, sizes.len() as int);
        lemma_offset_monotone(sizes, 0, i - 1);
        let o = tuple_offset(sizes, i - 1);
        assert(tuple_offset(sizes, i) == o + sizes[i - 1]);
        assert forall|j: int| 0 <= j < tl.len() implies s.contains(#[trigger] tl[j]) by {
            assert(tl[j] == letters[o + j]);
            assert(letters.contains(letters[o + j]));
        }
        lemma_place_no_change(s, 0, tl);
    }
}

/// In the secret's bytes, the bytes of every tuple come in the tuple's
/// order (a byte is never after the one that follows it in a tuple), when
/// the start bytes hold each byte once and every byte of the letters (as
/// they do for ASCII letters).
pub proof fn lemma_secret_respects_tuples(letters: Seq<char>, sizes: Seq<usize>)
    requires
        sizes_fit(encode_utf8(letters), sizes),
        settles(start_bytes(letters), encode_utf8(letters), sizes),
        start_bytes(letters).no_duplicates(),
        forall|b: u8| encode_utf8(letters).contains(b) ==> start_bytes(letters).contains(b),
    ensures
        forall|t: int, j: int|
            0 <= t < sizes.len() && 0 <= j < sizes[t] - 1 ==> position(
                secret_bytes(letters, sizes),
                #[trigger] tuple_letters(encode_utf8(letters), sizes, t)[j],
            ) <= position(secret_bytes(letters, sizes), tuple_letters(encode_utf8(letters), sizes, t)[j + 1]),
{
    let l = encode_utf8(letters);
    let start = start_bytes(letters);
    let n = settle_count(start, l, sizes);
    let w = choose|n: nat| settled_after(start, l, sizes, n);
    assert(settled_after(start, l, sizes, w));
    assert(exists|n: nat|
        settled_after(start, l, sizes, n) && forall|m: nat|
            m < n ==> !#[trigger] settled_after(start, l, sizes, m)) by {
        lemma_least_exists(start, l, sizes, w);
    }
    let r = secret_bytes(letters, sizes);
    assert(settled_after(start, l, sizes, n));
    reveal(settled_after);
    lemma_secret_letters(letters, sizes);
    lemma_pass_no_change(r, l, sizes, sizes.len() as int);
}

proof fn lemma_least_exists(s: Seq<u8>, letters: Seq<u8>, sizes: Seq<usize>, w: nat)
    requires
        settled_after(s, letters, sizes, w),
    ensures
        exists|n: nat|
            settled_after(s, letters, sizes, n) && forall|m: nat|
                m < n ==> !#[trigger] settled_after(s, letters, sizes, m),
    decreases w,
{
    if exists|m: nat| m < w && settled_after(s, letters, sizes, m) {
        let m = choose|m: nat| m < w && settled_after(s, letters, sizes, m);
        lemma_least_exists(s, letters, sizes, m);
    } else {
        assert(forall|m: nat| m < w ==> !#[trigger] settled_after(s, letters, sizes, m));
    }
}

} // verus!
