//! Definition and repetition levels of one bit, in the run-length encoding of Parquet.
//!
//! Levels are written as runs. A run begins with a header, a number of seven bits to the byte,
//! least significant first, with the top bit set in all bytes but the last. Where the header is
//! even, half of it says how often the level in the next byte is repeated. Where it is odd, half
//! of it says how many bytes with eight levels each follow, one bit for each, least significant
//! first.

use vstd::prelude::*;

verus! {

/// The bytes of a header.
pub open spec fn header_image(n: nat) -> Seq<u8>
    decreases n,
{
    if n < 128 {
        seq![n as u8]
    } else {
        seq![(n % 128 + 128) as u8] + header_image(n / 128)
    }
}

/// The number in the header at the beginning of `bytes`, and how many bytes it takes.
pub open spec fn header_value(bytes: Seq<u8>) -> (nat, nat)
    decreases bytes.len(),
{
    if bytes.len() == 0 {
        (0, 0)
    } else if bytes[0] < 128 {
        (bytes[0] as nat, 1)
    } else {
        let (above, used) = header_value(bytes.drop_first());
        ((bytes[0] - 128 + 128 * above) as nat, used + 1)
    }
}

/// A level, so many times.
pub open spec fn repeated(level: u8, count: nat) -> Seq<u8> {
    Seq::new(count, |i: int| level)
}

/// Bit `i` of a byte.
pub open spec fn bit(byte: u8, i: int) -> u8
    decreases i,
{
    if i <= 0 {
        byte % 2
    } else {
        bit(byte / 2, i - 1)
    }
}

/// The bits of bytes, least significant first.
pub open spec fn bits_of(bytes: Seq<u8>) -> Seq<u8> {
    Seq::new(8 * bytes.len(), |i: int| bit(bytes[i / 8], i % 8))
}

/// The levels that a stream of runs holds, up to the first run that is cut off.
pub open spec fn levels_of_runs(bytes: Seq<u8>) -> Seq<u8>
    decreases bytes.len(),
{
    let (header, used) = header_value(bytes);
    let rest = bytes.skip(used as int);
    let count = header / 2;
    if used == 0 || used > bytes.len() {
        Seq::empty()
    } else if header % 2 == 0 {
        if rest.len() == 0 {
            Seq::empty()
        } else {
            repeated(rest[0], count) + levels_of_runs(rest.skip(1))
        }
    } else if rest.len() < count {
        Seq::empty()
    } else {
        bits_of(rest.take(count as int)) + levels_of_runs(rest.skip(count as int))
    }
}

/// The runs of equal levels: the length of each, and its level.
pub open spec fn runs_of(levels: Seq<u8>) -> Seq<(nat, u8)>
    decreases levels.len(),
{
    if levels.len() == 0 {
        Seq::empty()
    } else {
        let before = runs_of(levels.drop_last());
        if before.len() > 0 && before.last().1 == levels.last() {
            before.drop_last().push((before.last().0 + 1, levels.last()))
        } else {
            before.push((1, levels.last()))
        }
    }
}

/// The bytes of one run.
pub open spec fn run_image(run: (nat, u8)) -> Seq<u8> {
    header_image(2 * run.0).push(run.1)
}

/// The bytes of runs, one after the other.
pub open spec fn run_bytes(runs: Seq<(nat, u8)>) -> Seq<u8> {
    runs.map_values(|run: (nat, u8)| run_image(run)).flatten()
}

/// The levels of runs, one after the other.
pub open spec fn run_levels(runs: Seq<(nat, u8)>) -> Seq<u8> {
    runs.map_values(|run: (nat, u8)| repeated(run.1, run.0)).flatten()
}

/// The encoding of levels: one run for each stretch of equal levels.
pub open spec fn rle_bytes(levels: Seq<u8>) -> Seq<u8> {
    run_bytes(runs_of(levels))
}

/// A header is what reading its bytes gives back, whatever follows them.
proof fn lemma_header(n: nat, rest: Seq<u8>)
    ensures
        header_value(header_image(n) + rest) == (n, header_image(n).len()),
        header_image(n).len() > 0,
    decreases n,
{
    let bytes = header_image(n) + rest;
    if n >= 128 {
        lemma_header(n / 128, rest);
        assert(bytes.drop_first() =~= header_image(n / 128) + rest);
        assert(bytes[0] == n % 128 + 128);
    } else {
        assert(bytes[0] == n);
    }
}

/// A run holds its level as often as it says.
proof fn lemma_run(run: (nat, u8), rest: Seq<u8>)
    ensures
        levels_of_runs(run_image(run) + rest) == repeated(run.1, run.0) + levels_of_runs(rest),
{
    let bytes = run_image(run) + rest;
    let header = header_image(2 * run.0);
    lemma_header(2 * run.0, seq![run.1] + rest);
    assert(bytes =~= header + (seq![run.1] + rest));
    let tail = bytes.skip(header.len() as int);
    assert(tail =~= seq![run.1] + rest);
    assert(tail.skip(1) =~= rest);
    assert(tail[0] == run.1);
    assert((2 * run.0) / 2 == run.0);
}

/// A stream of runs holds the levels of its runs.
proof fn lemma_runs(runs: Seq<(nat, u8)>)
    ensures
        levels_of_runs(run_bytes(runs)) == run_levels(runs),
    decreases runs.len(),
{
    let images = runs.map_values(|run: (nat, u8)| run_image(run));
    let levels = runs.map_values(|run: (nat, u8)| repeated(run.1, run.0));
    if runs.len() == 0 {
        assert(run_bytes(runs) =~= Seq::<u8>::empty());
        assert(run_levels(runs) =~= Seq::<u8>::empty());
    } else {
        let rest = runs.drop_first();
        lemma_runs(rest);
        assert(images.drop_first() =~= rest.map_values(|run: (nat, u8)| run_image(run)));
        assert(levels.drop_first() =~= rest.map_values(
            |run: (nat, u8)| repeated(run.1, run.0),
        ));
        lemma_run(runs[0], run_bytes(rest));
    }
}

/// One run more appends its bytes and its levels.
proof fn lemma_push_run(runs: Seq<(nat, u8)>, run: (nat, u8))
    ensures
        run_bytes(runs.push(run)) == run_bytes(runs) + run_image(run),
        run_levels(runs.push(run)) == run_levels(runs) + repeated(run.1, run.0),
{
    let image = |run: (nat, u8)| run_image(run);
    let level = |run: (nat, u8)| repeated(run.1, run.0);
    assert(runs.push(run).map_values(image) =~= runs.map_values(image).push(image(run)));
    assert(runs.push(run).map_values(level) =~= runs.map_values(level).push(level(run)));
    runs.map_values(image).lemma_flatten_push(image(run));
    runs.map_values(level).lemma_flatten_push(level(run));
}

/// The runs of levels hold these levels.
proof fn lemma_runs_of(levels: Seq<u8>)
    ensures
        run_levels(runs_of(levels)) == levels,
    decreases levels.len(),
{
    if levels.len() == 0 {
        assert(run_levels(runs_of(levels)) =~= levels);
    } else {
        let before = runs_of(levels.drop_last());
        lemma_runs_of(levels.drop_last());
        if before.len() > 0 && before.last().1 == levels.last() {
            let run = before.last();
            assert(before =~= before.drop_last().push(run));
            lemma_push_run(before.drop_last(), run);
            lemma_push_run(before.drop_last(), (run.0 + 1, run.1));
            assert(repeated(run.1, run.0 + 1) =~= repeated(run.1, run.0).push(run.1));
        } else {
            lemma_push_run(before, (1, levels.last()));
        }
        assert(run_levels(runs_of(levels)) =~= levels.drop_last().push(levels.last()));
        assert(levels =~= levels.drop_last().push(levels.last()));
    }
}

/// Levels are what reading their encoding gives back.
pub proof fn law_levels_read_back(levels: Seq<u8>)
    ensures
        levels_of_runs(rle_bytes(levels)) == levels,
{
    lemma_runs(runs_of(levels));
    lemma_runs_of(levels);
}

/// Appends the bytes of a header.
fn push_header(out: &mut Vec<u8>, n: u128)
    ensures
        final(out)@ == old(out)@ + header_image(n as nat),
{
    let mut rest: u128 = n;
    while rest >= 128
        invariant
            out@ + header_image(rest as nat) == old(out)@ + header_image(n as nat),
        decreases rest,
    {
        let ghost before = out@;
        out.push((rest % 128 + 128) as u8);
        assert(out@ + header_image((rest / 128) as nat) =~= before + header_image(rest as nat));
        rest = rest / 128;
    }
    let ghost before = out@;
    out.push(rest as u8);
    assert(out@ =~= before + header_image(rest as nat));
}

/// Appends the bytes of one run.
fn push_run(out: &mut Vec<u8>, count: usize, level: u8)
    ensures
        final(out)@ == old(out)@ + run_image((count as nat, level)),
{
    push_header(out, 2 * count as u128);
    out.push(level);
    assert(out@ =~= old(out)@ + run_image((count as nat, level)));
}

/// Encodes levels, one run for each stretch of equal levels.
pub fn encode_levels(levels: &[u8]) -> (bytes: Vec<u8>)
    ensures
        bytes@ == rle_bytes(levels@),
        levels_of_runs(bytes@) == levels@,
{
    let mut bytes: Vec<u8> = Vec::new();
    proof {
        law_levels_read_back(levels@);
    }
    if levels.len() == 0 {
        assert(bytes@ =~= rle_bytes(levels@));
        return bytes;
    }
    let mut level: u8 = levels[0];
    let mut count: usize = 1;
    let mut i: usize = 1;
    // the runs that are written already
    let ghost mut done: Seq<(nat, u8)> = Seq::empty();
    proof {
        assert(bytes@ =~= run_bytes(done));
        assert(levels@.take(1).drop_last() =~= Seq::<u8>::empty());
        assert(runs_of(Seq::<u8>::empty()) =~= Seq::<(nat, u8)>::empty());
        assert(runs_of(levels@.take(1)) =~= done.push((1nat, level)));
    }
    while i < levels.len()
        invariant
            1 <= count <= i <= levels@.len(),
            bytes@ == run_bytes(done),
            runs_of(levels@.take(i as int)) == done.push((count as nat, level)),
        decreases levels@.len() - i,
    {
        proof {
            assert(levels@.take(i + 1).drop_last() =~= levels@.take(i as int));
            assert(done.push((count as nat, level)).drop_last() =~= done);
        }
        if levels[i] == level {
            count = count + 1;
        } else {
            push_run(&mut bytes, count, level);
            proof {
                lemma_push_run(done, (count as nat, level));
                done = done.push((count as nat, level));
            }
            level = levels[i];
            count = 1;
        }
        i = i + 1;
    }
    push_run(&mut bytes, count, level);
    proof {
        lemma_push_run(done, (count as nat, level));
        assert(levels@.take(i as int) =~= levels@);
    }
    bytes
}

/// A header has seven bits of its number in each byte, least significant first, and the top bit set
/// in all bytes but the last. It has no more bytes than it needs.
pub proof fn law_header_digits(n: nat, k: nat)
    requires
        k < header_image(n).len(),
    ensures
        header_image(n)[k as int] % 128 == (n as int / vstd::arithmetic::power::pow(128, k)) % 128,
        header_image(n)[k as int] >= 128 <==> k < header_image(n).len() - 1,
        header_image(n).len() > 1 ==> header_image(n).last() != 0,
        n < vstd::arithmetic::power::pow(128, header_image(n).len()),
    decreases n,
{
    reveal(vstd::arithmetic::power::pow);
    let image = header_image(n);
    if n >= 128 {
        let rest = header_image(n / 128);
        lemma_header(n / 128, Seq::empty());
        assert(image =~= seq![(n % 128 + 128) as u8] + rest);
        assert(image.last() == rest.last());
        law_header_digits(n / 128, 0);
        vstd::arithmetic::power::lemma_pow_positive(128, rest.len());
        assert(vstd::arithmetic::power::pow(128, image.len()) == 128
            * vstd::arithmetic::power::pow(128, rest.len()));
        if k > 0 {
            let below = (k - 1) as nat;
            law_header_digits(n / 128, below);
            vstd::arithmetic::power::lemma_pow_positive(128, below);
            vstd::arithmetic::div_mod::lemma_div_denominator(
                n as int,
                128,
                vstd::arithmetic::power::pow(128, below),
            );
            assert(vstd::arithmetic::power::pow(128, k) == 128 * vstd::arithmetic::power::pow(
                128,
                below,
            ));
            assert(image[k as int] == rest[below as int]);
        } else {
            assert(n as int / 1 == n);
        }
        if rest.len() == 1 {
            assert(n / 128 > 0);
            assert(rest[0] == n / 128) by {
                assert(n / 128 < 128) by {
                    if n / 128 >= 128 {
                        lemma_header(n / 128 / 128, Seq::empty());
                        assert(rest.len() > 1);
                    }
                }
            }
        }
    } else {
        assert(n as int / 1 == n);
        assert(image[0] == n);
        assert(vstd::arithmetic::power::pow(128, 0) == 1);
        assert(vstd::arithmetic::power::pow(128, 1) == 128);
    }
}

/// The bits of a byte are its digits to the base 2, least significant first.
pub proof fn law_bits_are_digits(byte: u8, i: nat)
    ensures
        bit(byte, i as int) == (byte as int / vstd::arithmetic::power::pow(2, i)) % 2,
    decreases i,
{
    reveal(vstd::arithmetic::power::pow);
    if i > 0 {
        let below = (i - 1) as nat;
        law_bits_are_digits(byte / 2, below);
        vstd::arithmetic::power::lemma_pow_positive(2, below);
        vstd::arithmetic::div_mod::lemma_div_denominator(
            byte as int,
            2,
            vstd::arithmetic::power::pow(2, below),
        );
    } else {
        assert(byte as int / 1 == byte);
    }
}

/// The runs of levels are as long as they can be: none is empty, and no two that follow one another
/// have the same level.
pub proof fn law_runs_are_longest(levels: Seq<u8>, i: int)
    requires
        0 <= i < runs_of(levels).len(),
    ensures
        runs_of(levels)[i].0 > 0,
        i > 0 ==> runs_of(levels)[i - 1].1 != runs_of(levels)[i].1,
    decreases levels.len(),
{
    if levels.len() > 0 {
        let before = runs_of(levels.drop_last());
        if i < before.len() {
            law_runs_are_longest(levels.drop_last(), i);
        }
    }
}

/// A run is written as twice its length and its level. Where it has fewer than 64 levels, these are
/// two bytes.
pub proof fn law_run_is_header_and_level(run: (nat, u8))
    ensures
        run_image(run) == header_image(2 * run.0) + seq![run.1],
        run.0 < 64 ==> run_image(run) == seq![(2 * run.0) as u8, run.1],
{
    assert(run_image(run) =~= header_image(2 * run.0) + seq![run.1]);
    if run.0 < 64 {
        assert(run_image(run) =~= seq![(2 * run.0) as u8, run.1]);
    }
}

} // verus!
