//! A chunking configuration: the algorithm and the boundary policy.
use crate::iter::{Delimited, Distances};
use crate::{Hasher, Named};
use vstd::prelude::*;

verus! {

/// A hash algorithm with the policy: a boundary needs a checksum level of at
/// least `THRESHOLD` and a run of at least `MIN_SIZE` bytes, and no run grows
/// past `MAX_SIZE` bytes.
#[derive(Clone, Copy, Debug, Default)]
pub struct Config<Hash, const THRESHOLD: u32, const MIN_SIZE: usize, const MAX_SIZE: usize> {
    pub hasher: Hash,
}

impl<
    Hash: Hasher,
    const THRESHOLD: u32,
    const MIN_SIZE: usize,
    const MAX_SIZE: usize,
> Config<Hash, THRESHOLD, MIN_SIZE, MAX_SIZE> {
    pub fn new(hasher: Hash) -> (r: Self)
        ensures
            r.hasher == hasher,
    {
        Config { hasher }
    }

    /// The event sequence of `source` under this configuration.
    pub fn delimited<'a>(self, source: &'a [u8]) -> (r: Delimited<
        'a,
        Hash,
        THRESHOLD,
        MIN_SIZE,
        MAX_SIZE,
    >)
        requires
            MIN_SIZE <= MAX_SIZE,
        ensures
            r.wf(),
            r.spec_hasher() == self.hasher,
            r.spec_source() == source@,
            r.spec_yielded() == 0,
    {
        Delimited::start(self.hasher, source)
    }

    /// The extents of `source` under this configuration.
    pub fn distances<'a>(self, source: &'a [u8]) -> (r: Distances<
        'a,
        Hash,
        THRESHOLD,
        MIN_SIZE,
        MAX_SIZE,
    >)
        requires
            MIN_SIZE <= MAX_SIZE,
        ensures
            r.wf(),
            r.spec_hasher() == self.hasher,
            r.spec_source() == source@,
            r.spec_yielded() == 0,
    {
        Distances::start(self.hasher, source)
    }
}

/// The decimal digit `d`.
pub open spec fn digit_char(d: nat) -> char {
    (48 + d) as char
}

/// The decimal representation of `n`, without leading zeros.
pub open spec fn decimal(n: nat) -> Seq<char>
    decreases n,
{
    if n < 10 {
        seq![digit_char(n)]
    } else {
        decimal(n / 10).push(digit_char(n % 10))
    }
}

/// A size in the largest binary unit that divides it: `64Ki`, `2Mi`, `1Gi`,
/// or plain decimal.
pub open spec fn size_text(z: nat) -> Seq<char> {
    if z % 0x4000_0000 == 0 {
        decimal(z / 0x4000_0000) + seq!['G', 'i']
    } else if z % 0x10_0000 == 0 {
        decimal(z / 0x10_0000) + seq!['M', 'i']
    } else if z % 0x400 == 0 {
        decimal(z / 0x400) + seq!['K', 'i']
    } else {
        decimal(z)
    }
}

/// The name of a configuration: `HashSplit_<threshold>_<algorithm>_<min>_<max>`.
pub open spec fn config_text(threshold: nat, name: Seq<char>, min_size: nat, max_size: nat) -> Seq<
    char,
> {
    seq!['H', 'a', 's', 'h', 'S', 'p', 'l', 'i', 't', '_'] + decimal(threshold) + seq!['_'] + name
        + seq!['_'] + size_text(min_size) + seq!['_'] + size_text(max_size)
}

fn digit_str(d: usize) -> (r: &'static str)
    requires
        d < 10,
    ensures
        r@ == seq![digit_char(d as nat)],
{
    proof {
        reveal_strlit("0");
        reveal_strlit("1");
        reveal_strlit("2");
        reveal_strlit("3");
        reveal_strlit("4");
        reveal_strlit("5");
        reveal_strlit("6");
        reveal_strlit("7");
        reveal_strlit("8");
        reveal_strlit("9");
    }
    match d {
        0 => "0",
        1 => "1",
        2 => "2",
        3 => "3",
        4 => "4",
        5 => "5",
        6 => "6",
        7 => "7",
        8 => "8",
        _ => "9",
    }
}

fn push_decimal(s: &mut String, n: usize)
    ensures
        final(s)@ == old(s)@ + decimal(n as nat),
    decreases n,
{
    if n >= 10 {
        push_decimal(s, n / 10);
    }
    s.append(digit_str(n % 10));
    assert(final(s)@ =~= old(s)@ + decimal(n as nat));
}

fn push_size(s: &mut String, z: usize)
    ensures
        final(s)@ == old(s)@ + size_text(z as nat),
{
    if z % 0x4000_0000 == 0 {
        push_decimal(s, z / 0x4000_0000);
        proof {
            reveal_strlit("Gi");
        }
        s.append("Gi");
    } else if z % 0x10_0000 == 0 {
        push_decimal(s, z / 0x10_0000);
        proof {
            reveal_strlit("Mi");
        }
        s.append("Mi");
    } else if z % 0x400 == 0 {
        push_decimal(s, z / 0x400);
        proof {
            reveal_strlit("Ki");
        }
        s.append("Ki");
    } else {
        push_decimal(s, z);
    }
    assert(final(s)@ =~= old(s)@ + size_text(z as nat));
}

impl<
    Hash: Named,
    const THRESHOLD: u32,
    const MIN_SIZE: usize,
    const MAX_SIZE: usize,
> Config<Hash, THRESHOLD, MIN_SIZE, MAX_SIZE> {
    /// The configuration's name, for diagnostics.
    pub fn to_string(&self) -> (r: String)
        ensures
            r@ == config_text(THRESHOLD as nat, Hash::NAME@, MIN_SIZE as nat, MAX_SIZE as nat),
    {
        let mut s = String::new();
        proof {
            reveal_strlit("HashSplit_");
            reveal_strlit("_");
        }
        s.append("HashSplit_");
        push_decimal(&mut s, THRESHOLD as usize);
        s.append("_");
        s.append(Hash::NAME);
        s.append("_");
        push_size(&mut s, MIN_SIZE);
        s.append("_");
        push_size(&mut s, MAX_SIZE);
        assert(s@ =~= config_text(THRESHOLD as nat, Hash::NAME@, MIN_SIZE as nat, MAX_SIZE as nat));
        s
    }
}

} // verus!
