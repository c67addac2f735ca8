//! Walking a paged remote listing, and waiting out rate limits.
//!
//! Both are written as steps: the caller makes the remote call and hands the
//! outcome in; the step says what to do next.

use vstd::prelude::*;

verus! {

/// The seconds to wait where a rate limit names no time.
pub const DEFAULT_WAIT_SECS: u64 = 1;

/// Why a remote call failed.
#[derive(Clone, Debug, PartialEq, Eq)]
pub enum ApiError<E> {
    /// The service throttles the caller; it may say for how many seconds.
    RateLimited { retry_after_secs: Option<u64> },
    /// Any other failure, which is not retried.
    Other(E),
}

/// The HTTP status by which the service says that the caller is throttled.
pub const TOO_MANY_REQUESTS: u16 = 429;

/// Whether `text` is a run of decimal digits, at least one.
pub open spec fn is_digits(text: Seq<char>) -> bool {
    text.len() > 0 && forall|i: int| 0 <= i < text.len() ==> '0' <= #[trigger] text[i] <= '9'
}

/// The number that the decimal digits `digits` write.
pub open spec fn decimal(digits: Seq<char>) -> nat
    decreases digits.len(),
{
    if digits.len() == 0 {
        0
    } else {
        decimal(digits.drop_last()) * 10 + (digits.last() as nat - '0' as nat) as nat
    }
}

/// The whole seconds that a `Retry-After` header names: decimal digits, with
/// an optional `+` before them, that write a number within `u64`. Any other
/// text, a date for one, names none.
pub open spec fn seconds_in(text: Seq<char>) -> Option<u64> {
    let digits = if text.len() > 0 && text[0] == '+' {
        text.drop_first()
    } else {
        text
    };
    if is_digits(digits) && decimal(digits) <= u64::MAX {
        Some(decimal(digits) as u64)
    } else {
        None
    }
}

/// More digits write no smaller a number.
pub proof fn lemma_decimal_grows(digits: Seq<char>, n: int)
    requires
        0 <= n <= digits.len(),
        forall|i: int| 0 <= i < digits.len() ==> '0' <= #[trigger] digits[i] <= '9',
    ensures
        decimal(digits.take(n)) <= decimal(digits),
    decreases digits.len() - n,
{
    if n < digits.len() {
        lemma_decimal_grows(digits, n + 1);
        assert(digits.take(n + 1).drop_last() =~= digits.take(n));
    } else {
        assert(digits.take(n) =~= digits);
    }
}

/// Reads the whole seconds that a `Retry-After` header names.
pub fn parse_seconds(text: &str) -> (secs: Option<u64>)
    ensures
        secs == seconds_in(text@),
{
    let len = text.unicode_len();
    let start: usize = if len > 0 && text.get_char(0) == '+' {
        1
    } else {
        0
    };
    let ghost digits = if start == 1 {
        text@.drop_first()
    } else {
        text@
    };
    if start == len {
        return None;
    }
    let mut value: u64 = 0;
    let mut i: usize = start;
    assert(digits.take(0) =~= Seq::<char>::empty());
    while i < len
        invariant
            start <= i <= len,
            len == text@.len(),
            start <= 1,
            digits == (if text@.len() > 0 && text@[0] == '+' {
                text@.drop_first()
            } else {
                text@
            }),
            digits.len() == len - start,
            forall|j: int| 0 <= j < digits.len() ==> digits[j] == text@[j + start],
            forall|j: int| 0 <= j < i - start ==> '0' <= #[trigger] digits[j] <= '9',
            value == decimal(digits.take(i - start)),
        decreases len - i,
    {
        let c = text.get_char(i);
        assert(c == digits[i - start]);
        if c < '0' || c > '9' {
            return None;
        }
        let digit = (c as u64) - ('0' as u64);
        assert(digits.take(i - start + 1).drop_last() =~= digits.take(i - start));
        let ghost longer = decimal(digits.take(i - start + 1));
        assert(longer == value * 10 + digit);
        let next = match value.checked_mul(10) {
            Some(tens) => tens.checked_add(digit),
            None => None,
        };
        match next {
            Some(next) => {
                value = next;
            },
            None => {
                proof {
                    if is_digits(digits) {
                        lemma_decimal_grows(digits, i - start + 1);
                    }
                }
                return None;
            },
        }
        i = i + 1;
    }
    assert(digits.take(len - start) =~= digits);
    Some(value)
}

/// The failure that an unsuccessful HTTP answer stands for: status 429 is a
/// rate limit, with the seconds of its `Retry-After` header where that names
/// any; every other status is an error that is not retried.
pub fn status_error<E>(status: u16, retry_after: Option<&str>, error: E) -> (failure: ApiError<E>)
    ensures
        failure == (if status == TOO_MANY_REQUESTS {
            ApiError::RateLimited {
                retry_after_secs: match retry_after {
                    Some(text) => seconds_in(text@),
                    None => None,
                },
            }
        } else {
            ApiError::Other(error)
        }),
{
    if status == TOO_MANY_REQUESTS {
        let retry_after_secs = match retry_after {
            Some(text) => parse_seconds(text),
            None => None,
        };
        ApiError::RateLimited { retry_after_secs }
    } else {
        ApiError::Other(error)
    }
}

/// What to do after one attempt at a remote call.
#[derive(Clone, Debug, PartialEq, Eq)]
pub enum RetryStep<T, E> {
    /// The call succeeded with this value.
    Done(T),
    /// Sleep for so many seconds, then make the call again.
    Wait(u64),
    /// The call failed for good with this error.
    Fail(E),
}

/// The step that follows an attempt with the given outcome.
pub open spec fn step_after<T, E>(outcome: Result<T, ApiError<E>>) -> RetryStep<T, E> {
    match outcome {
        Ok(value) => RetryStep::Done(value),
        Err(ApiError::RateLimited { retry_after_secs: Some(secs) }) => RetryStep::Wait(secs),
        Err(ApiError::RateLimited { retry_after_secs: None }) => RetryStep::Wait(DEFAULT_WAIT_SECS),
        Err(ApiError::Other(error)) => RetryStep::Fail(error),
    }
}

/// Decides what follows one attempt at a remote call: a success is handed on,
/// a rate limit is waited out and the call made again, any other failure is
/// handed on at once.
pub fn retry_step<T, E>(outcome: Result<T, ApiError<E>>) -> (step: RetryStep<T, E>)
    ensures
        step == step_after(outcome),
{
    match outcome {
        Ok(value) => RetryStep::Done(value),
        Err(ApiError::RateLimited { retry_after_secs }) => {
            match retry_after_secs {
                Some(secs) => RetryStep::Wait(secs),
                None => RetryStep::Wait(DEFAULT_WAIT_SECS),
            }
        },
        Err(ApiError::Other(error)) => RetryStep::Fail(error),
    }
}

/// How a retried call went: the waits made, and the end it came to, if the
/// attempts on record reach one.
pub struct RetryRun<T, E> {
    pub waits: Seq<u64>,
    pub end: Option<Result<T, E>>,
}

/// The course of a retried call whose successive attempts have the outcomes
/// `attempts`: it stops at the first attempt that is not rate limited.
pub open spec fn retry_run<T, E>(attempts: Seq<Result<T, ApiError<E>>>) -> RetryRun<T, E>
    decreases attempts.len(),
{
    if attempts.len() == 0 {
        RetryRun { waits: Seq::empty(), end: None }
    } else {
        match step_after(attempts[0]) {
            RetryStep::Done(value) => RetryRun { waits: Seq::empty(), end: Some(Ok(value)) },
            RetryStep::Fail(error) => RetryRun { waits: Seq::empty(), end: Some(Err(error)) },
            RetryStep::Wait(secs) => {
                let later = retry_run(attempts.drop_first());
                RetryRun { waits: seq![secs] + later.waits, end: later.end }
            },
        }
    }
}

/// The seconds that a rate-limited attempt makes the caller wait.
pub open spec fn wait_of<T, E>(outcome: Result<T, ApiError<E>>) -> u64 {
    match step_after(outcome) {
        RetryStep::Wait(secs) => secs,
        _ => 0,
    }
}

/// A call that is rate limited `n` times and then succeeds with `value`
/// returns `value` after exactly `n` waits, each as long as the rate limit
/// asked, or one second where it did not say.
pub proof fn lemma_retry_waits_then_succeeds<T, E>(
    attempts: Seq<Result<T, ApiError<E>>>,
    n: int,
    value: T,
)
    requires
        0 <= n < attempts.len(),
        forall|i: int| 0 <= i < n ==> (#[trigger] attempts[i]) matches Err(ApiError::RateLimited { .. }),
        attempts[n] == Ok::<T, ApiError<E>>(value),
    ensures
        retry_run(attempts).end == Some(Ok::<T, E>(value)),
        retry_run(attempts).waits.len() == n,
        forall|i: int| 0 <= i < n ==> (#[trigger] retry_run(attempts).waits[i]) == wait_of(attempts[i]),
    decreases n,
{
    if n > 0 {
        let rest = attempts.drop_first();
        assert(attempts[0] matches Err(ApiError::RateLimited { .. }));
        assert forall|i: int| 0 <= i < n - 1 implies (#[trigger] rest[i]) matches Err(
            ApiError::RateLimited { .. },
        ) by {
            assert(rest[i] == attempts[i + 1]);
        }
        lemma_retry_waits_then_succeeds(rest, n - 1, value);
        assert forall|i: int| 0 <= i < n implies (#[trigger] retry_run(attempts).waits[i]) == wait_of(
            attempts[i],
        ) by {
            if i > 0 {
                assert(retry_run(attempts).waits[i] == retry_run(rest).waits[i - 1]);
                assert(rest[i - 1] == attempts[i]);
            }
        }
    }
}

/// A call that is rate limited `n` times and then fails otherwise gives that
/// failure after exactly `n` waits: it is not retried.
pub proof fn lemma_retry_gives_up_on_other_errors<T, E>(
    attempts: Seq<Result<T, ApiError<E>>>,
    n: int,
    error: E,
)
    requires
        0 <= n < attempts.len(),
        forall|i: int| 0 <= i < n ==> (#[trigger] attempts[i]) matches Err(ApiError::RateLimited { .. }),
        attempts[n] == Err::<T, ApiError<E>>(ApiError::Other(error)),
    ensures
        retry_run(attempts).end == Some(Err::<T, E>(error)),
        retry_run(attempts).waits.len() == n,
    decreases n,
{
    if n > 0 {
        let rest = attempts.drop_first();
        assert(attempts[0] matches Err(ApiError::RateLimited { .. }));
        assert forall|i: int| 0 <= i < n - 1 implies (#[trigger] rest[i]) matches Err(
            ApiError::RateLimited { .. },
        ) by {
            assert(rest[i] == attempts[i + 1]);
        }
        lemma_retry_gives_up_on_other_errors(rest, n - 1, error);
    }
}

/// One page of a remote listing.
#[derive(Clone, Debug, PartialEq, Eq)]
pub struct Page<T> {
    /// The items of this page, in the listing's order.
    pub items: Vec<T>,
    /// How many items the whole listing held when the page was made.
    pub total: u32,
}

/// The state of a walk through a paged listing, in contracts.
pub struct PaginatorView<T> {
    /// The size of the listing, as learnt at the start.
    pub total: nat,
    /// The items gathered so far.
    pub items: Seq<T>,
    /// Whether an empty page has ended the walk early.
    pub stopped: bool,
}

impl<T> PaginatorView<T> {
    /// The state at the start of a walk through a listing of `total` items.
    pub open spec fn start(total: nat) -> PaginatorView<T> {
        PaginatorView { total, items: Seq::empty(), stopped: false }
    }

    /// The offset of the page to ask for next, if the walk goes on.
    pub open spec fn next_offset(self) -> Option<nat> {
        if !self.stopped && self.items.len() < self.total {
            Some(self.items.len())
        } else {
            None
        }
    }

    /// The state after the page asked for came back with `items`: an empty
    /// page ends the walk, any other is appended whole.
    pub open spec fn after_page(self, items: Seq<T>) -> PaginatorView<T> {
        if self.next_offset() is None {
            self
        } else if items.len() == 0 {
            PaginatorView { stopped: true, ..self }
        } else {
            PaginatorView { items: self.items + items, ..self }
        }
    }

    /// The state after the pages asked for came back as `pages`, in turn.
    pub open spec fn after_pages(self, pages: Seq<Seq<T>>) -> PaginatorView<T>
        decreases pages.len(),
    {
        if pages.len() == 0 {
            self
        } else {
            self.after_page(pages[0]).after_pages(pages.drop_first())
        }
    }
}

/// A walk through a paged listing that gathers all its items.
#[derive(Debug)]
pub struct Paginator<T> {
    total: u32,
    items: Vec<T>,
    stopped: bool,
}

impl<T> View for Paginator<T> {
    type V = PaginatorView<T>;

    closed spec fn view(&self) -> PaginatorView<T> {
        PaginatorView { total: self.total as nat, items: self.items@, stopped: self.stopped }
    }
}

impl<T> Paginator<T> {
    /// Starts a walk. `first` is what a request at offset 0 returned; only
    /// its total is read, and the walk then asks for offset 0 again.
    pub fn new(first: &Page<T>) -> (walk: Paginator<T>)
        ensures
            walk@ == PaginatorView::<T>::start(first.total as nat),
    {
        Paginator { total: first.total, items: Vec::new(), stopped: false }
    }

    /// The offset of the page to ask for next, or `None` when the walk is over.
    pub fn next_offset(&self) -> (offset: Option<u32>)
        ensures
            match offset {
                Some(offset) => self@.next_offset() == Some(offset as nat),
                None => self@.next_offset() is None,
            },
    {
        if !self.stopped && self.items.len() < self.total as usize {
            Some(self.items.len() as u32)
        } else {
            None
        }
    }

    /// Takes in the page that came back for [`Paginator::next_offset`]. An
    /// empty page ends the walk: the listing has shrunk since it began.
    /// Any other page is appended whole, and the next offset moves on by as
    /// many items as the page held.
    pub fn accept(&mut self, page: Page<T>)
        ensures
            final(self)@ == old(self)@.after_page(page.items@),
    {
        if !self.stopped && self.items.len() < self.total as usize {
            let mut page = page;
            if page.items.len() == 0 {
                self.stopped = true;
            } else {
                self.items.append(&mut page.items);
            }
        }
    }

    /// Ends the walk and hands out what it gathered.
    pub fn finish(self) -> (items: Vec<T>)
        ensures
            items@ == self@.items,
    {
        self.items
    }
}

/// Taking in pages one list after another is taking in the two lists joined.
pub proof fn lemma_after_pages_joined<T>(
    state: PaginatorView<T>,
    first: Seq<Seq<T>>,
    second: Seq<Seq<T>>,
)
    ensures
        state.after_pages(first + second) == state.after_pages(first).after_pages(second),
    decreases first.len(),
{
    if first.len() == 0 {
        assert(first + second =~= second);
    } else {
        assert((first + second).drop_first() =~= first.drop_first() + second);
        lemma_after_pages_joined(state.after_page(first[0]), first.drop_first(), second);
    }
}

/// Once a walk is over, further pages change nothing.
pub proof fn lemma_walk_over_stays_over<T>(state: PaginatorView<T>, pages: Seq<Seq<T>>)
    requires
        state.next_offset() is None,
    ensures
        state.after_pages(pages) == state,
    decreases pages.len(),
{
    if pages.len() > 0 {
        lemma_walk_over_stays_over(state, pages.drop_first());
    }
}

/// Pages that are not empty and do not overrun the total are gathered whole
/// and in order, whatever their sizes.
pub proof fn lemma_pages_gathered<T>(state: PaginatorView<T>, pages: Seq<Seq<T>>)
    requires
        !state.stopped,
        forall|i: int| 0 <= i < pages.len() ==> (#[trigger] pages[i]).len() > 0,
        state.items.len() + pages.flatten().len() <= state.total,
    ensures
        state.after_pages(pages) == (PaginatorView { items: state.items + pages.flatten(), ..state }),
    decreases pages.len(),
{
    if pages.len() == 0 {
        assert(state.items + pages.flatten() =~= state.items);
    } else {
        let rest = pages.drop_first();
        assert(pages.flatten() == pages[0] + rest.flatten());
        assert(pages[0].len() > 0);
        assert forall|i: int| 0 <= i < rest.len() implies (#[trigger] rest[i]).len() > 0 by {
            assert(rest[i] == pages[i + 1]);
        }
        lemma_pages_gathered(state.after_page(pages[0]), rest);
        assert(state.items + pages[0] + rest.flatten() =~= state.items + pages.flatten());
    }
}

/// A listing of `all.len()` items that comes back in pages of any sizes, none
/// empty, is gathered as exactly `all`, in order, and the walk then asks for
/// nothing more.
pub proof fn lemma_walk_gathers_all<T>(all: Seq<T>, pages: Seq<Seq<T>>)
    requires
        pages.flatten() == all,
        forall|i: int| 0 <= i < pages.len() ==> (#[trigger] pages[i]).len() > 0,
    ensures
        PaginatorView::<T>::start(all.len()).after_pages(pages).items == all,
        PaginatorView::<T>::start(all.len()).after_pages(pages).next_offset() is None,
        !PaginatorView::<T>::start(all.len()).after_pages(pages).stopped,
{
    let start = PaginatorView::<T>::start(all.len());
    lemma_pages_gathered(start, pages);
    assert(start.items + pages.flatten() =~= all);
}

/// Where a page comes back empty before the total is reached, the walk ends
/// with exactly the items of the pages before it, and whatever might have
/// followed is not taken in.
pub proof fn lemma_walk_ends_at_empty_page<T>(
    total: nat,
    before: Seq<Seq<T>>,
    after: Seq<Seq<T>>,
)
    requires
        forall|i: int| 0 <= i < before.len() ==> (#[trigger] before[i]).len() > 0,
        before.flatten().len() < total,
    ensures
        PaginatorView::<T>::start(total).after_pages(before + seq![Seq::<T>::empty()] + after).items
            == before.flatten(),
        PaginatorView::<T>::start(total).after_pages(
            before + seq![Seq::<T>::empty()] + after,
        ).next_offset() is None,
{
    let start = PaginatorView::<T>::start(total);
    let gap = seq![Seq::<T>::empty()];
    lemma_pages_gathered(start, before);
    let gathered = start.after_pages(before);
    assert(start.items + before.flatten() =~= before.flatten());
    let ended = gathered.after_page(Seq::<T>::empty());
    lemma_walk_over_stays_over(ended, gap.drop_first());
    assert(gathered.after_pages(gap) == ended);
    lemma_walk_over_stays_over(ended, after);
    lemma_after_pages_joined(start, before, gap);
    lemma_after_pages_joined(start, before + gap, after);
}

} // verus!
