//! A congestion window that grows along the Fibonacci sequence.
use vstd::prelude::*;

verus! {

/// A window and the increments to come.
#[derive(Debug, Clone, Copy, PartialEq, Eq, Structural)]
pub struct FibBackoff {
    window: u64,
    fib_a: u64,
    fib_b: u64,
    max: u64,
}

/// What such a window holds.
pub struct BackoffView {
    pub window: u64,
    /// The increment before the next.
    pub last: u64,
    /// The next increment.
    pub next: u64,
    pub max: u64,
}

impl View for FibBackoff {
    type V = BackoffView;

    closed spec fn view(&self) -> BackoffView {
        BackoffView { window: self.window, last: self.fib_a, next: self.fib_b, max: self.max }
    }
}

/// The sum, or the largest number there is.
pub open spec fn capped_sum(a: u64, b: u64) -> u64 {
    if a + b > u64::MAX {
        u64::MAX
    } else {
        (a + b) as u64
    }
}

impl BackoffView {
    /// The window after a success: larger by the next increment, up to the
    /// limit.
    pub open spec fn grown(self) -> BackoffView {
        let w = capped_sum(self.window, self.next);
        BackoffView {
            window: if w < self.max {
                w
            } else {
                self.max
            },
            last: self.next,
            next: capped_sum(self.last, self.next),
            ..self
        }
    }

    /// The window set anew, and the growth started over.
    pub open spec fn reset(self, window: u64) -> BackoffView {
        BackoffView { window, last: 1, next: 1, ..self }
    }

    /// The window after some successes.
    pub open spec fn grown_by(self, n: nat) -> BackoffView
        decreases n,
    {
        if n == 0 {
            self
        } else {
            self.grown_by((n - 1) as nat).grown()
        }
    }
}

impl FibBackoff {
    /// A window with a limit.
    pub fn new(initial: u64, max: u64) -> (r: Self)
        ensures
            r@ == (BackoffView { window: initial, last: 1, next: 1, max }),
    {
        FibBackoff { window: initial, fib_a: 1, fib_b: 1, max }
    }

    /// The window, in the caller's unit.
    pub fn window(&self) -> (w: u64)
        ensures
            w == self@.window,
    {
        self.window
    }

    /// A success: grow by the next increment.
    pub fn on_success(&mut self)
        ensures
            final(self)@ == old(self)@.grown(),
    {
        let w: u64 = self.window.saturating_add(self.fib_b);
        self.window = if w < self.max {
            w
        } else {
            self.max
        };
        let next: u64 = self.fib_a.saturating_add(self.fib_b);
        self.fib_a = self.fib_b;
        self.fib_b = next;
    }

    /// A loss: shrink to `reduced`, which the caller has worked out from the
    /// window, and start the growth over.
    pub fn on_loss(&mut self, reduced: u64)
        ensures
            final(self)@ == old(self)@.reset(reduced),
    {
        self.window = reduced;
        self.fib_a = 1;
        self.fib_b = 1;
    }

    /// A timeout: back to the initial window, and start the growth over.
    pub fn on_timeout(&mut self, initial: u64)
        ensures
            final(self)@ == old(self)@.reset(initial),
    {
        self.window = initial;
        self.fib_a = 1;
        self.fib_b = 1;
    }
}

/// The Fibonacci numbers 1, 1, 2, 3 and so on.
pub open spec fn fibonacci(n: nat) -> nat
    decreases n,
{
    if n <= 1 {
        1
    } else {
        fibonacci((n - 1) as nat) + fibonacci((n - 2) as nat)
    }
}

/// A number, or the largest that 64 bits hold.
pub open spec fn capped(n: nat) -> u64 {
    if n > u64::MAX {
        u64::MAX
    } else {
        n as u64
    }
}

/// The increments are the Fibonacci numbers: after `n` successes from a fresh
/// start the next one is number `n + 1`.
pub proof fn increments_are_fibonacci_numbers(v: BackoffView, n: nat)
    requires
        v.last == 1,
        v.next == 1,
    ensures
        v.grown_by(n).last == capped(fibonacci(n)),
        v.grown_by(n).next == capped(fibonacci(n + 1)),
        v.grown_by(n).max == v.max,
    decreases n,
{
    if n == 0 {
        assert(fibonacci(0) == 1 && fibonacci(1) == 1);
    } else {
        increments_are_fibonacci_numbers(v, (n - 1) as nat);
        assert(fibonacci(n + 1) == fibonacci(n) + fibonacci((n - 1) as nat));
    }
}

/// A window that was within its limit stays within it, and no success makes it
/// smaller.
pub proof fn success_never_shrinks_the_window(v: BackoffView)
    requires
        v.window <= v.max,
    ensures
        v.window <= v.grown().window <= v.max,
{
}

/// From a fresh start within the limit, `n` successes add the first `n` of the
/// numbers 1, 2, 3, 5 and so on to the window, and no more than the limit allows.
pub proof fn successes_add_up(v: BackoffView, n: nat)
    requires
        v.last == 1,
        v.next == 1,
        v.window <= v.max,
    ensures
        v.grown_by(n).window == (if v.window + fibonacci(n + 2) - 2 < v.max {
            v.window + fibonacci(n + 2) - 2
        } else {
            v.max as int
        }),
    decreases n,
{
    reveal_with_fuel(fibonacci, 3);
    if n > 0 {
        successes_add_up(v, (n - 1) as nat);
        increments_are_fibonacci_numbers(v, (n - 1) as nat);
        assert(fibonacci(n + 2) == fibonacci(n + 1) + fibonacci(n));
        lemma_fibonacci_positive(n);
        lemma_fibonacci_positive(n + 1);
    }
}

proof fn lemma_fibonacci_positive(n: nat)
    ensures
        fibonacci(n) >= 1,
    decreases n,
{
    if n > 1 {
        lemma_fibonacci_positive((n - 1) as nat);
    }
}

/// After a loss, or a timeout, the window is the one that was given and grows as
/// a fresh one does, under the same limit.
pub proof fn a_loss_starts_over(v: BackoffView, given: u64, n: nat)
    requires
        given <= v.max,
    ensures
        v.reset(given).window == given,
        v.reset(given).max == v.max,
        v.reset(given).grown_by(n).window == (if given + fibonacci(n + 2) - 2 < v.max {
            given + fibonacci(n + 2) - 2
        } else {
            v.max as int
        }),
{
    successes_add_up(v.reset(given), n);
}

} // verus!
