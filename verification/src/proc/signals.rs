//! Signals: their numbers, and what a process does with them.

use vstd::prelude::*;

verus! {

pub const SIGNAL_COUNT: usize = 65;

pub const SIGBUS: usize = 7;

pub const SIGKILL: usize = 9;

pub const SIGSEGV: usize = 11;

pub const SIGPIPE: usize = 13;

pub const SIGCHLD: usize = 17;

pub const SIGCONT: usize = 18;

pub const SIGSTOP: usize = 19;

/// A set of signals, as programs pass it; the first word holds all that exist.
#[derive(Debug, Clone, Copy, PartialEq, Eq, Structural)]
pub struct SignalSet {
    pub low: u64,
    pub high: u64,
}

pub open spec fn no_signals() -> SignalSet {
    SignalSet { low: 0, high: 0 }
}

/// What a process does when a signal comes. Handler 0 is the default, handler 1
/// ignores it.
#[derive(Debug, Clone, Copy, PartialEq, Eq, Structural)]
pub struct SignalAction {
    pub handler: u64,
    pub mask: SignalSet,
    pub flags: u64,
    pub restorer: u64,
}

pub open spec fn default_action() -> SignalAction {
    SignalAction { handler: 0, mask: no_signals(), flags: 0, restorer: 0 }
}

impl Default for SignalAction {
    fn default() -> (r: Self)
        ensures
            r == default_action(),
    {
        SignalAction { handler: 0, mask: SignalSet { low: 0, high: 0 }, flags: 0, restorer: 0 }
    }
}

pub open spec fn default_actions() -> Seq<SignalAction> {
    Seq::new(65, |i: int| default_action())
}

/// The actions of a process that has set none.
pub fn fresh_actions() -> (r: Vec<SignalAction>)
    ensures
        r@ == default_actions(),
{
    let mut v: Vec<SignalAction> = Vec::new();
    let mut i: usize = 0;
    while i < SIGNAL_COUNT
        invariant
            i <= 65,
            v@.len() == i,
            forall|k: int| 0 <= k < i ==> v@[k] == default_action(),
        decreases 65 - i,
    {
        v.push(SignalAction::default());
        i = i + 1;
    }
    proof {
        assert(v@ =~= default_actions());
    }
    v
}

/// A stack for signal handlers; flag 2 says that there is none.
#[derive(Debug, Clone, Copy, PartialEq, Eq, Structural)]
pub struct SignalAltStack {
    pub sp: u64,
    pub flags: i32,
    pub size: u64,
}

pub open spec fn no_alt_stack() -> SignalAltStack {
    SignalAltStack { sp: 0, flags: 2, size: 0 }
}

impl Default for SignalAltStack {
    fn default() -> (r: Self)
        ensures
            r == no_alt_stack(),
    {
        SignalAltStack { sp: 0, flags: 2, size: 0 }
    }
}

/// The bit of signal `sig`.
pub open spec fn bit_of(sig: int) -> u64 {
    1u64 << ((sig - 1) as u64)
}

pub fn signal_bit(sig: usize) -> (r: u64)
    requires
        1 <= sig <= 64,
    ensures
        r == bit_of(sig as int),
{
    1u64 << (sig - 1) as u64
}

/// Whether signal `sig` is in the set `word`.
pub open spec fn has_signal(word: u64, sig: int) -> bool {
    word & bit_of(sig) != 0
}

/// The lowest signal in `word`.
pub fn lowest_signal(word: u64) -> (r: Option<usize>)
    ensures
        match r {
            Some(s) => 1 <= s <= 64 && has_signal(word, s as int) && forall|t: int|
                1 <= t < s ==> !#[trigger] has_signal(word, t),
            None => word == 0,
        },
{
    if word == 0 {
        return None;
    }
    let n: u32 = word.trailing_zeros();
    proof {
        vstd::std_specs::bits::axiom_u64_trailing_zeros(word);
        lemma_bit_at(word, n as u64);
        assert(has_signal(word, n + 1));
        assert forall|t: int| 1 <= t < n + 1 implies !#[trigger] has_signal(word, t) by {
            lemma_bit_at(word, (t - 1) as u64);
        }
    }
    Some(n as usize + 1)
}

proof fn lemma_bit_at(word: u64, k: u64)
    requires
        k < 64,
    ensures
        (word >> k) & 1u64 == 1u64 <==> word & (1u64 << k) != 0,
        (word >> k) & 1u64 == 0u64 <==> word & (1u64 << k) == 0,
{
    assert(((word >> k) & 1u64 == 1u64 <==> word & (1u64 << k) != 0) && ((word >> k) & 1u64 == 0u64
        <==> word & (1u64 << k) == 0)) by (bit_vector)
        requires
            k < 64,
    ;
}

/// A signal is in a set after it was put in; the others are as before.
pub proof fn lemma_added(word: u64, sig: int, t: int)
    requires
        1 <= sig <= 64,
        1 <= t <= 64,
    ensures
        has_signal(word | bit_of(sig), t) == (t == sig || has_signal(word, t)),
{
    let a = (sig - 1) as u64;
    let b = (t - 1) as u64;
    assert(((word | (1u64 << a)) & (1u64 << b) != 0) == (a == b || word & (1u64 << b) != 0))
        by (bit_vector)
        requires
            a < 64,
            b < 64,
    ;
}

/// A signal is not in a set after it was taken out; the others are as before.
pub proof fn lemma_taken(word: u64, sig: int, t: int)
    requires
        1 <= sig <= 64,
        1 <= t <= 64,
    ensures
        has_signal(word & !bit_of(sig), t) == (t != sig && has_signal(word, t)),
{
    let a = (sig - 1) as u64;
    let b = (t - 1) as u64;
    assert(((word & !(1u64 << a)) & (1u64 << b) != 0) == (a != b && word & (1u64 << b) != 0))
        by (bit_vector)
        requires
            a < 64,
            b < 64,
    ;
}

} // verus!
