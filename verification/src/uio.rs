//! What the handler makes of the UIO device: its name, the size of its memory, and when to wait
//! for it.
#[allow(unused_imports)]
use vstd::arithmetic::power::{lemma_pow0, pow};
use vstd::prelude::*;

verus! {

/// How the name of a UIO device that TCMU made begins: "tcm-user".
pub open spec fn tcmu_name() -> Seq<u8> {
    seq![0x74u8, 0x63, 0x6d, 0x2d, 0x75, 0x73, 0x65, 0x72]
}

/// Whether the UIO device of this name is one that TCMU made.
pub fn check_uio(name: &[u8]) -> (r: bool)
    ensures
        r == tcmu_name().is_prefix_of(name@),
{
    let prefix: [u8; 8] = [0x74, 0x63, 0x6d, 0x2d, 0x75, 0x73, 0x65, 0x72];
    assert(prefix@ =~= tcmu_name());
    if name.len() < 8 {
        return false;
    }
    let mut i: usize = 0;
    while i < 8
        invariant
            i <= 8,
            name@.len() >= 8,
            prefix@ == tcmu_name(),
            forall|k: int| 0 <= k < i ==> name@[k] == prefix@[k],
        decreases 8 - i,
    {
        if name[i] != prefix[i] {
            assert(name@.take(8)[i as int] == name@[i as int]);
            return false;
        }
        i += 1;
    }
    assert(name@.subrange(0, 8) =~= tcmu_name());
    true
}

/// The value of a hexadecimal digit.
pub open spec fn digit(c: u8) -> Option<int> {
    if 0x30 <= c <= 0x39 {
        Some(c - 0x30)
    } else if 0x41 <= c <= 0x46 {
        Some(c - 0x41 + 10)
    } else if 0x61 <= c <= 0x66 {
        Some(c - 0x61 + 10)
    } else {
        None
    }
}

/// Whether there is a digit, and nothing else.
pub open spec fn is_number(s: Seq<u8>) -> bool {
    s.len() > 0 && forall|k: int| 0 <= k < s.len() ==> digit(#[trigger] s[k]) is Some
}

/// The value of a hexadecimal number.
pub open spec fn number(s: Seq<u8>) -> int
    decreases s.len(),
{
    if s.len() == 0 {
        0
    } else {
        16 * number(s.drop_last()) + digit(s.last())->0
    }
}

/// `s` without the plus sign that may stand before a number.
pub open spec fn unsigned(s: Seq<u8>) -> Seq<u8> {
    if s.len() > 1 && s[0] == 0x2b {
        s.skip(1)
    } else {
        s
    }
}

/// The size of the shared region, as the UIO device gives it: two characters "0x", a hexadecimal
/// number, and a line feed. Only the number is looked at.
pub open spec fn map_size(s: Seq<u8>) -> Option<usize> {
    let digits = unsigned(s.subrange(2, s.len() - 1));
    if s.len() >= 3 && is_number(digits) && number(digits) <= usize::MAX {
        Some(number(digits) as usize)
    } else {
        None
    }
}

/// Further digits do not make a number smaller.
proof fn lemma_number_grows(s: Seq<u8>, k: int)
    requires
        is_number(s),
        0 <= k <= s.len(),
    ensures
        0 <= number(s.take(k)) <= number(s),
    decreases s.len(),
{
    let init = s.drop_last();
    assert(digit(s[s.len() - 1]) is Some);
    assert(forall|j: int| 0 <= j < init.len() ==> #[trigger] init[j] == s[j]);
    if s.len() == 1 {
        assert(number(init) == 0);
    } else {
        lemma_number_grows(init, init.len() as int);
        assert(init.take(init.len() as int) =~= init);
    }
    if k == s.len() {
        assert(s.take(k) =~= s);
    } else if k > 0 {
        lemma_number_grows(init, k);
        assert(init.take(k) =~= s.take(k));
    }
}

/// The value of a hexadecimal digit, if it is one.
fn digit_value(c: u8) -> (r: Option<u8>)
    ensures
        match r {
            Some(d) => digit(c) == Some(d as int) && d < 16,
            None => digit(c) is None,
        },
{
    if 0x30 <= c && c <= 0x39 {
        Some(c - 0x30)
    } else if 0x41 <= c && c <= 0x46 {
        Some(c - 0x41 + 10)
    } else if 0x61 <= c && c <= 0x66 {
        Some(c - 0x61 + 10)
    } else {
        None
    }
}

/// Reads the size of the shared region out of the line in which the UIO device gives it.
pub fn get_mmap_size(s: &[u8]) -> (r: Option<usize>)
    ensures
        r == map_size(s@),
{
    if s.len() < 4 {
        return None;
    }
    let end: usize = s.len() - 1;
    let first: usize = if end - 2 > 1 && s[2] == 0x2b {
        3
    } else {
        2
    };
    let ghost digits = unsigned(s@.subrange(2, s@.len() - 1));
    assert(digits =~= s@.subrange(first as int, end as int));
    let mut value: usize = 0;
    let mut i: usize = first;
    while i < end
        invariant
            2 <= first <= i <= end,
            first < end,
            end == s@.len() - 1,
            digits == s@.subrange(first as int, end as int),
            digits == unsigned(s@.subrange(2, s@.len() - 1)),
            forall|k: int| 0 <= k < i - first ==> digit(#[trigger] digits[k]) is Some,
            value == number(digits.take(i - first)),
        decreases end - i,
    {
        let ghost k = i - first;
        assert(digits[k] == s@[i as int]);
        let d: u8 = match digit_value(s[i]) {
            Some(d) => d,
            None => {
                return None;
            },
        };
        assert(digits.take(k + 1).drop_last() =~= digits.take(k));
        proof {
            if is_number(digits) {
                lemma_number_grows(digits, k + 1);
            }
        }
        let shifted: usize = match value.checked_mul(16) {
            Some(v) => v,
            None => {
                return None;
            },
        };
        value = match shifted.checked_add(d as usize) {
            Some(v) => v,
            None => {
                return None;
            },
        };
        i += 1;
    }
    assert(digits.take(end - first) =~= digits);
    Some(value)
}

/// How many times in a row the ring may be found empty before the handler waits.
pub const MAX_EMPTY_LOOPS: u32 = 100;

/// What to do after one look at the ring.
#[derive(Clone, Copy, Debug, PartialEq, Eq, Structural)]
pub enum Action {
    /// Tell the kernel that commands were handled.
    Notify,
    /// Look again at once.
    Spin,
    /// Wait for the kernel, then look again.
    Wait,
}

/// Counts how many times in a row the ring was found empty.
#[derive(Clone, Copy, Debug, PartialEq, Eq, Structural)]
pub struct Idle {
    n_empty_loop: u32,
}

/// What `Idle` does after a look that found `n_proceeded` entries: the action, and the count.
pub open spec fn after_look(n_empty_loop: nat, n_proceeded: nat) -> (Action, nat) {
    if n_proceeded > 0 {
        (Action::Notify, 0)
    } else if n_empty_loop + 1 > MAX_EMPTY_LOOPS {
        (Action::Wait, 0)
    } else {
        (Action::Spin, n_empty_loop + 1)
    }
}

impl Idle {
    /// The number of times in a row that the ring was found empty.
    pub closed spec fn count(&self) -> nat {
        self.n_empty_loop as nat
    }

    /// The handler has not looked more often than it may without waiting.
    pub closed spec fn wf(&self) -> bool {
        self.n_empty_loop <= MAX_EMPTY_LOOPS
    }

    /// Before the first look.
    pub fn new() -> (idle: Idle)
        ensures
            idle.wf(),
            idle.count() == 0,
    {
        Idle { n_empty_loop: 0 }
    }

    /// Decides what to do after a look at the ring in which `n_proceeded` entries were handled.
    pub fn looked(&mut self, n_proceeded: usize) -> (action: Action)
        requires
            old(self).wf(),
        ensures
            final(self).wf(),
            (action, final(self).count()) == after_look(old(self).count(), n_proceeded as nat),
    {
        if n_proceeded > 0 {
            self.n_empty_loop = 0;
            Action::Notify
        } else {
            self.n_empty_loop = self.n_empty_loop + 1;
            if self.n_empty_loop > MAX_EMPTY_LOOPS {
                self.n_empty_loop = 0;
                Action::Wait
            } else {
                Action::Spin
            }
        }
    }
}

/// The count after `looks` looks in a row that found the ring empty.
pub open spec fn count_after_empty_looks(looks: nat) -> nat
    decreases looks,
{
    if looks == 0 {
        0
    } else {
        after_look(count_after_empty_looks((looks - 1) as nat), 0).1
    }
}

/// From the first look on, and after each notification, as long as the ring is found empty, the
/// handler waits at each look whose number is a multiple of `MAX_EMPTY_LOOPS + 1`, and at no
/// other.
pub proof fn lemma_waits_after_max_empty_loops(looks: nat)
    ensures
        count_after_empty_looks(looks) == looks % (MAX_EMPTY_LOOPS as nat + 1),
        after_look(count_after_empty_looks(looks), 0).0 == (if (looks + 1) % (
        MAX_EMPTY_LOOPS as nat + 1) == 0 {
            Action::Wait
        } else {
            Action::Spin
        }),
    decreases looks,
{
    if looks > 0 {
        lemma_waits_after_max_empty_loops((looks - 1) as nat);
    }
    let round: nat = MAX_EMPTY_LOOPS as nat + 1;
    assert(round == 101);
    assert((looks + 1) % round == 0 <==> looks % round == round - 1) by {
        assert((looks + 1) % 101 == 0 <==> looks % 101 == 100);
    }
}

/// The device has to have a name that begins with "tcm-user".
pub proof fn lemma_tcmu_name()
    ensures
        tcmu_name().len() == "tcm-user"@.len(),
        forall|i: int|
            0 <= i < "tcm-user"@.len() ==> #[trigger] tcmu_name()[i] as int == "tcm-user"@[i] as int,
{
    reveal_strlit("tcm-user");
}

/// A digit stands for each value below sixteen, those from ten on by a letter of either case, and
/// no other character is a digit.
pub proof fn lemma_digit(c: u8, d: u8)
    requires
        d < 16,
    ensures
        digit(c) == Some(d as int) <==> (c as int == '0' as int + d && d < 10) || (c as int
            == 'a' as int + d - 10 && d >= 10) || (c as int == 'A' as int + d - 10 && d >= 10),
        digit(c) matches Some(v) ==> 0 <= v < 16,
{
}

/// The first of `n + 1` digits counts sixteen to the power of `n`.
pub proof fn lemma_leading_digit(c: u8, s: Seq<u8>)
    requires
        digit(c) is Some,
    ensures
        number(seq![c]) == digit(c)->0,
        number(seq![c] + s) == digit(c)->0 * pow(16, s.len()) + number(s),
    decreases s.len(),
{
    let all = seq![c] + s;
    assert(seq![c].drop_last() =~= Seq::<u8>::empty());
    assert(number(Seq::<u8>::empty()) == 0);
    if s.len() == 0 {
        assert(all =~= seq![c]);
        lemma_pow0(16);
    } else {
        let init = s.drop_last();
        assert(all.drop_last() =~= seq![c] + init);
        lemma_leading_digit(c, init);
        assert(pow(16, s.len()) == 16 * pow(16, init.len())) by {
            reveal(pow);
        }
        let d = digit(c)->0;
        let p = pow(16, init.len());
        assert(16 * (d * p + number(init)) == d * (16 * p) + 16 * number(init))
            by (nonlinear_arith);
    }
}

/// A line is two characters, a number, with or without a plus sign before it, and one character
/// more. It gives the size if the number has only digits, at least one, and fits. What the other
/// characters are does not matter.
pub proof fn lemma_map_size(p0: u8, p1: u8, plus: bool, digits: Seq<u8>, last: u8)
    requires
        !plus && digits.len() > 0 ==> digits[0] != '+' as u8,
    ensures
        ({
            let sign = if plus {
                seq!['+' as u8]
            } else {
                Seq::empty()
            };
            let size = map_size(seq![p0, p1] + sign + digits + seq![last]);
            let valid = digits.len() > 0 && forall|k: int|
                0 <= k < digits.len() ==> digit(#[trigger] digits[k]) is Some;
            &&& valid && number(digits) <= usize::MAX ==> size == Some(number(digits) as usize)
            &&& !valid || number(digits) > usize::MAX ==> size is None
        }),
{
    let sign = if plus {
        seq!['+' as u8]
    } else {
        Seq::empty()
    };
    let s = seq![p0, p1] + sign + digits + seq![last];
    assert(s.subrange(2, s.len() - 1) =~= sign + digits);
    if digits.len() > 0 {
        assert(unsigned(sign + digits) =~= digits);
    } else {
        assert(unsigned(sign + digits) =~= sign);
        if plus {
            assert(digit(sign[0]) is None);
        }
    }
}

/// A line of less than three characters gives no size.
pub proof fn lemma_short_line(s: Seq<u8>)
    requires
        s.len() < 3,
    ensures
        map_size(s) is None,
{
}

/// After a look that handled at least one entry the kernel is told, and the count starts anew.
pub proof fn lemma_handled_entries_are_notified(n_empty_loop: nat, n_proceeded: nat)
    requires
        n_proceeded >= 1,
    ensures
        after_look(n_empty_loop, n_proceeded) == (Action::Notify, 0nat),
{
}

/// After a look that handled none the kernel is not told. The look is counted, until there were a
/// hundred before it: then the handler waits, and the count starts anew.
pub proof fn lemma_empty_look(n_empty_loop: nat)
    ensures
        n_empty_loop < 100 ==> after_look(n_empty_loop, 0) == (Action::Spin, n_empty_loop + 1),
        n_empty_loop >= 100 ==> after_look(n_empty_loop, 0) == (Action::Wait, 0nat),
{
}

} // verus!
