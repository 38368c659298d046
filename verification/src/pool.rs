//! The glyph pool: the characters the rain is drawn from, seeded with the
//! machine's own identity (host name, OS and kernel) so that it shows up in
//! the rain.

use vstd::prelude::*;

verus! {

/// How many random live system characters are added to the pool.
pub const LIVE_SEEDS: usize = 96;

/// How many random pool entries are repeated to weight the pool.
pub const ECHO_SEEDS: usize = 160;

pub open spec fn is_ascii_alnum(c: char) -> bool {
    (48 <= c as u32 <= 57) || (65 <= c as u32 <= 90) || (97 <= c as u32 <= 122)
}

/// The ASCII letters and digits of `s`, in order.
pub open spec fn alnum_only(s: Seq<char>) -> Seq<char>
    decreases s.len(),
{
    if s.len() == 0 {
        Seq::empty()
    } else {
        let rest = alnum_only(s.drop_last());
        if is_ascii_alnum(s.last()) {
            rest.push(s.last())
        } else {
            rest
        }
    }
}

/// Whether `c` is an ASCII letter or digit.
pub fn ascii_alnum(c: char) -> (b: bool)
    ensures
        b == is_ascii_alnum(c),
{
    let v = c as u32;
    (48 <= v && v <= 57) || (65 <= v && v <= 90) || (97 <= v && v <= 122)
}

fn append_alnum(out: &mut Vec<char>, src: &[char], Ghost(pre): Ghost<Seq<char>>)
    requires
        old(out)@ == alnum_only(pre),
    ensures
        final(out)@ == alnum_only(pre + src@),
{
    let mut i: usize = 0;
    while i < src.len()
        invariant
            i <= src.len(),
            out@ == alnum_only(pre + src@.take(i as int)),
        decreases src.len() - i,
    {
        let c = src[i];
        assert((pre + src@.take(i + 1)).drop_last() =~= pre + src@.take(i as int));
        assert((pre + src@.take(i + 1)).last() == c);
        if ascii_alnum(c) {
            out.push(c);
        }
        i = i + 1;
    }
    assert(src@.take(src.len() as int) =~= src@);
}

/// The live system characters: the ASCII letters and digits of the host
/// name, the OS name and the kernel version, in that order.
pub fn live_system_chars(hostname: &[char], os: &[char], kernel: &[char]) -> (r: Vec<char>)
    ensures
        r@ == alnum_only(hostname@ + os@ + kernel@),
{
    let mut out: Vec<char> = Vec::new();
    assert(Seq::<char>::empty().len() == 0);
    append_alnum(&mut out, hostname, Ghost(Seq::empty()));
    assert(Seq::<char>::empty() + hostname@ =~= hostname@);
    append_alnum(&mut out, os, Ghost(hostname@));
    append_alnum(&mut out, kernel, Ghost(hostname@ + os@));
    out
}

pub open spec fn after_live_seed(pool: Seq<char>, live: Seq<char>, idx: int) -> Seq<char> {
    pool.push(live[idx])
}

pub open spec fn after_echo_seed(pool: Seq<char>, idx: int) -> Seq<char> {
    if 0 <= idx < pool.len() {
        pool.push(pool[idx])
    } else {
        pool
    }
}

/// Adds live system character `idx` to the pool.
pub fn seed_live(pool: &mut Vec<char>, live: &[char], idx: usize)
    requires
        idx < live.len(),
    ensures
        final(pool)@ == after_live_seed(old(pool)@, live@, idx as int),
{
    pool.push(live[idx]);
}

/// Repeats pool entry `idx`, if there is one, at the end of the pool.
pub fn seed_echo(pool: &mut Vec<char>, idx: usize)
    ensures
        final(pool)@ == after_echo_seed(old(pool)@, idx as int),
{
    if idx < pool.len() {
        let c = pool[idx];
        pool.push(c);
    }
}

/// Every glyph of `pool` comes from `base` or `live`.
pub open spec fn drawn_from(pool: Seq<char>, base: Seq<char>, live: Seq<char>) -> bool {
    forall|i: int| 0 <= i < pool.len() ==> base.contains(#[trigger] pool[i]) || live.contains(pool[i])
}

/// Seeding only ever adds glyphs taken from the starting pool or from the
/// live system characters, and never shrinks the pool.
pub proof fn lemma_seeding_keeps_sources(pool: Seq<char>, base: Seq<char>, live: Seq<char>, idx: int)
    requires
        drawn_from(pool, base, live),
    ensures
        drawn_from(after_echo_seed(pool, idx), base, live),
        after_echo_seed(pool, idx).len() >= pool.len(),
        0 <= idx < live.len() ==> drawn_from(after_live_seed(pool, live, idx), base, live),
        0 <= idx < live.len() ==> after_live_seed(pool, live, idx).len() == pool.len() + 1,
{
    if 0 <= idx < pool.len() {
        let p = after_echo_seed(pool, idx);
        assert forall|i: int| 0 <= i < p.len() implies base.contains(#[trigger] p[i]) || live.contains(p[i]) by {
            if i == pool.len() {
                assert(p[i] == pool[idx]);
            } else {
                assert(p[i] == pool[i]);
            }
        }
    }
    if 0 <= idx < live.len() {
        let p = after_live_seed(pool, live, idx);
        assert forall|i: int| 0 <= i < p.len() implies base.contains(#[trigger] p[i]) || live.contains(p[i]) by {
            if i == pool.len() {
                assert(p[i] == live[idx]);
            } else {
                assert(p[i] == pool[i]);
            }
        }
    }
}

/// The pool after the live seeds: one live character per roll, in order.
pub open spec fn live_seeded(pool: Seq<char>, live: Seq<char>, rolls: Seq<usize>) -> Seq<char> {
    pool + Seq::new(rolls.len(), |i: int| live[rolls[i] as int])
}

/// The pool after echo seeds with the given rolls, one after another.
pub open spec fn echo_seeded(pool: Seq<char>, rolls: Seq<usize>) -> Seq<char>
    decreases rolls.len(),
{
    if rolls.len() == 0 {
        pool
    } else {
        after_echo_seed(echo_seeded(pool, rolls.drop_last()), rolls.last() as int)
    }
}

/// The whole seeding: the live seeds when there are live characters, then
/// the echo seeds.
pub open spec fn seeded_pool(pool: Seq<char>, live: Seq<char>, live_rolls: Seq<usize>, echo_rolls: Seq<usize>) -> Seq<char> {
    let p = if live.len() > 0 {
        live_seeded(pool, live, live_rolls)
    } else {
        pool
    };
    echo_seeded(p, echo_rolls)
}

/// Number of live seeds that are applied.
pub open spec fn live_seed_count(live: Seq<char>, live_rolls: Seq<usize>) -> int {
    if live.len() > 0 {
        live_rolls.len() as int
    } else {
        0
    }
}

/// Echo roll `i` picks an entry of the pool as it stands before that echo,
/// when the pool starts the echoes with `start` entries and grows by one each time.
pub open spec fn echo_rolls_fit(start: int, rolls: Seq<usize>) -> bool {
    forall|i: int| 0 <= i < rolls.len() ==> #[trigger] rolls[i] < start + i
}

/// Seeds the pool with the machine's identity: each live roll adds that live
/// character (only when there are live characters), then each echo roll
/// repeats that entry of the pool, if there is one. Every glyph of the
/// result comes from the starting pool or the live characters; when the
/// pool starts non-empty and every echo roll falls inside the pool, the pool
/// grows by one glyph per applied roll.
pub fn seed_pool(pool: &mut Vec<char>, live: &[char], live_rolls: &[usize], echo_rolls: &[usize])
    requires
        live.len() > 0 ==> forall|i: int| 0 <= i < live_rolls.len() ==> #[trigger] live_rolls[i] < live.len(),
    ensures
        final(pool)@ == seeded_pool(old(pool)@, live@, live_rolls@, echo_rolls@),
        drawn_from(final(pool)@, old(pool)@, live@),
        old(pool)@.len() <= final(pool)@.len(),
        old(pool)@.len() > 0 && echo_rolls_fit(old(pool)@.len() + live_seed_count(live@, live_rolls@), echo_rolls@)
            ==> final(pool)@.len() == old(pool)@.len() + live_seed_count(live@, live_rolls@) + echo_rolls.len(),
{
    let ghost base = pool@;
    assert forall|i: int| 0 <= i < base.len() implies base.contains(#[trigger] base[i]) || live@.contains(base[i]) by {
        assert(base[i] == base[i]);
    }
    if live.len() > 0 {
        let mut i: usize = 0;
        while i < live_rolls.len()
            invariant
                i <= live_rolls.len(),
                live.len() > 0,
                forall|j: int| 0 <= j < live_rolls.len() ==> #[trigger] live_rolls[j] < live.len(),
                pool@ == live_seeded(base, live@, live_rolls@.take(i as int)),
                drawn_from(pool@, base, live@),
            decreases live_rolls.len() - i,
        {
            let idx = live_rolls[i];
            proof {
                lemma_seeding_keeps_sources(pool@, base, live@, idx as int);
            }
            seed_live(pool, live, idx);
            assert(pool@ =~= live_seeded(base, live@, live_rolls@.take(i + 1)));
            i = i + 1;
        }
        assert(live_rolls@.take(live_rolls.len() as int) =~= live_rolls@);
    }
    let ghost start = pool@;
    assert(start.len() == base.len() + live_seed_count(live@, live_rolls@));
    let mut i: usize = 0;
    while i < echo_rolls.len()
        invariant
            i <= echo_rolls.len(),
            pool@ == echo_seeded(start, echo_rolls@.take(i as int)),
            drawn_from(pool@, base, live@),
            base.len() <= start.len() <= pool@.len(),
            start.len() > 0 && echo_rolls_fit(start.len() as int, echo_rolls@) ==> pool@.len() == start.len() + i,
        decreases echo_rolls.len() - i,
    {
        let idx = echo_rolls[i];
        proof {
            lemma_seeding_keeps_sources(pool@, base, live@, idx as int);
            assert(echo_rolls@.take(i + 1).drop_last() =~= echo_rolls@.take(i as int));
            if start.len() > 0 && echo_rolls_fit(start.len() as int, echo_rolls@) {
                assert(echo_rolls@[i as int] < start.len() + i);
            }
        }
        seed_echo(pool, idx);
        i = i + 1;
    }
    assert(echo_rolls@.take(echo_rolls.len() as int) =~= echo_rolls@);
}

/// An ASCII digit or letter, by character ranges.
pub open spec fn letter_or_digit(c: char) -> bool {
    ('0' as u32 <= c as u32 && c as u32 <= '9' as u32)
        || ('A' as u32 <= c as u32 && c as u32 <= 'Z' as u32)
        || ('a' as u32 <= c as u32 && c as u32 <= 'z' as u32)
}

/// The characters kept are exactly the ASCII digits `'0'..='9'` and letters
/// `'A'..='Z'`, `'a'..='z'`.
pub proof fn lemma_alnum_chars(c: char)
    ensures
        is_ascii_alnum(c) <==> letter_or_digit(c),
        ('0' as u32 <= c as u32 && c as u32 <= '9' as u32) ==> is_ascii_alnum(c),
{
}

/// The live characters of a text are the text filtered to its ASCII letters
/// and digits: every one of them is kept, in order, and nothing else.
pub proof fn lemma_alnum_only_filters(s: Seq<char>)
    ensures
        alnum_only(s) == s.filter(|c: char| letter_or_digit(c)),
    decreases s.len(),
{
    reveal(Seq::filter);
    if s.len() > 0 {
        lemma_alnum_only_filters(s.drop_last());
        lemma_alnum_chars(s.last());
    }
}

} // verus!
