use spotify_shuffle::fetch::{
    parse_seconds, retry_step, status_error, ApiError, Page, Paginator, RetryStep,
    DEFAULT_WAIT_SECS, TOO_MANY_REQUESTS,
};

fn page(items: &[u32], total: u32) -> Page<u32> {
    Page { items: items.to_vec(), total }
}

/// Walks a listing whose loader answers with the given pages in turn, and
/// returns the offsets asked for and what was gathered.
fn walk(total: u32, pages: &[Vec<u32>]) -> (Vec<u32>, Vec<u32>) {
    let mut walk = Paginator::new(&page(&[], total));
    let mut asked = Vec::new();
    let mut next = 0;
    while let Some(offset) = walk.next_offset() {
        asked.push(offset);
        let items = pages.get(next).cloned().unwrap_or_default();
        next += 1;
        walk.accept(Page { items, total });
    }
    (asked, walk.finish())
}

/// Runs the retry loop over the outcomes of successive attempts.
fn attempt_all(outcomes: Vec<Result<&'static str, ApiError<u16>>>) -> (Vec<u64>, Option<Result<&'static str, u16>>) {
    let mut waits = Vec::new();
    for outcome in outcomes {
        match retry_step(outcome) {
            RetryStep::Done(value) => return (waits, Some(Ok(value))),
            RetryStep::Fail(error) => return (waits, Some(Err(error))),
            RetryStep::Wait(secs) => waits.push(secs),
        }
    }
    (waits, None)
}

#[test]
fn success_is_handed_on() {
    let outcome: Result<u8, ApiError<u16>> = Ok(7);
    assert_eq!(retry_step(outcome), RetryStep::Done(7));
}

#[test]
fn rate_limit_waits_as_long_as_asked() {
    let outcome: Result<u8, ApiError<u16>> = Err(ApiError::RateLimited { retry_after_secs: Some(30) });
    assert_eq!(retry_step(outcome), RetryStep::Wait(30));
}

#[test]
fn rate_limit_without_a_time_waits_one_second() {
    let outcome: Result<u8, ApiError<u16>> = Err(ApiError::RateLimited { retry_after_secs: None });
    assert_eq!(retry_step(outcome), RetryStep::Wait(1));
    assert_eq!(DEFAULT_WAIT_SECS, 1);
}

#[test]
fn rate_limit_of_zero_seconds_is_still_a_wait() {
    let outcome: Result<u8, ApiError<u16>> = Err(ApiError::RateLimited { retry_after_secs: Some(0) });
    assert_eq!(retry_step(outcome), RetryStep::Wait(0));
}

#[test]
fn other_errors_are_not_retried() {
    let outcome: Result<u8, ApiError<u16>> = Err(ApiError::Other(404));
    assert_eq!(retry_step(outcome), RetryStep::Fail(404));
}

#[test]
fn three_rate_limits_then_success_take_three_waits() {
    let (waits, end) = attempt_all(vec![
        Err(ApiError::RateLimited { retry_after_secs: Some(2) }),
        Err(ApiError::RateLimited { retry_after_secs: None }),
        Err(ApiError::RateLimited { retry_after_secs: Some(5) }),
        Ok("done"),
        Ok("never asked"),
    ]);
    assert_eq!(waits, vec![2, 1, 5]);
    assert_eq!(end, Some(Ok("done")));
}

#[test]
fn success_at_once_takes_no_wait() {
    let (waits, end) = attempt_all(vec![Ok("done")]);
    assert_eq!(waits, Vec::<u64>::new());
    assert_eq!(end, Some(Ok("done")));
}

#[test]
fn rate_limits_then_failure_give_the_failure() {
    let (waits, end) = attempt_all(vec![
        Err(ApiError::RateLimited { retry_after_secs: None }),
        Err(ApiError::Other(401)),
        Ok("never asked"),
    ]);
    assert_eq!(waits, vec![1]);
    assert_eq!(end, Some(Err(401)));
}

#[test]
fn uneven_pages_are_gathered_in_order() {
    let (asked, items) = walk(7, &[vec![10, 11, 12], vec![13], vec![14, 15, 16]]);
    assert_eq!(asked, vec![0, 3, 4]);
    assert_eq!(items, vec![10, 11, 12, 13, 14, 15, 16]);
}

#[test]
fn one_page_with_everything_is_enough() {
    let (asked, items) = walk(4, &[vec![1, 2, 3, 4]]);
    assert_eq!(asked, vec![0]);
    assert_eq!(items, vec![1, 2, 3, 4]);
}

#[test]
fn pages_of_one_item_each() {
    let (asked, items) = walk(3, &[vec![7], vec![8], vec![9]]);
    assert_eq!(asked, vec![0, 1, 2]);
    assert_eq!(items, vec![7, 8, 9]);
}

#[test]
fn empty_listing_asks_for_no_page() {
    let (asked, items) = walk(0, &[vec![1, 2]]);
    assert_eq!(asked, Vec::<u32>::new());
    assert_eq!(items, Vec::<u32>::new());
}

#[test]
fn empty_page_ends_the_walk_with_what_was_gathered() {
    let (asked, items) = walk(10, &[vec![1, 2, 3], vec![4], vec![], vec![5, 6]]);
    assert_eq!(asked, vec![0, 3, 4]);
    assert_eq!(items, vec![1, 2, 3, 4]);
}

#[test]
fn empty_first_page_gathers_nothing() {
    let (asked, items) = walk(5, &[vec![]]);
    assert_eq!(asked, vec![0]);
    assert_eq!(items, Vec::<u32>::new());
}

#[test]
fn page_that_overruns_the_total_is_taken_whole() {
    let (asked, items) = walk(3, &[vec![1, 2], vec![3, 4, 5], vec![6]]);
    assert_eq!(asked, vec![0, 2]);
    assert_eq!(items, vec![1, 2, 3, 4, 5]);
}

#[test]
fn first_answer_only_tells_the_total() {
    let mut walk = Paginator::new(&page(&[99, 98], 2));
    assert_eq!(walk.next_offset(), Some(0));
    walk.accept(page(&[1, 2], 2));
    assert_eq!(walk.next_offset(), None);
    assert_eq!(walk.finish(), vec![1, 2]);
}

#[test]
fn total_of_later_pages_is_not_read() {
    let mut walk = Paginator::new(&page(&[], 3));
    walk.accept(page(&[1, 2], 100));
    assert_eq!(walk.next_offset(), Some(2));
    walk.accept(page(&[3], 0));
    assert_eq!(walk.next_offset(), None);
    assert_eq!(walk.finish(), vec![1, 2, 3]);
}

#[test]
fn pages_after_the_end_are_not_taken() {
    let mut walk = Paginator::new(&page(&[], 2));
    walk.accept(page(&[1, 2], 2));
    walk.accept(page(&[3, 4], 2));
    assert_eq!(walk.next_offset(), None);
    assert_eq!(walk.finish(), vec![1, 2]);
}

#[test]
fn pages_after_an_empty_page_are_not_taken() {
    let mut walk = Paginator::new(&page(&[], 5));
    walk.accept(page(&[1], 5));
    walk.accept(page(&[], 5));
    assert_eq!(walk.next_offset(), None);
    walk.accept(page(&[2, 3], 5));
    assert_eq!(walk.next_offset(), None);
    assert_eq!(walk.finish(), vec![1]);
}

#[test]
fn seconds_are_read_from_decimal_digits() {
    assert_eq!(parse_seconds("30"), Some(30));
    assert_eq!(parse_seconds("0"), Some(0));
    assert_eq!(parse_seconds("007"), Some(7));
    assert_eq!(parse_seconds("+5"), Some(5));
    assert_eq!(parse_seconds("1234567890"), Some(1_234_567_890));
}

#[test]
fn seconds_up_to_the_largest_number_are_read() {
    assert_eq!(parse_seconds("18446744073709551615"), Some(u64::MAX));
    assert_eq!(parse_seconds("18446744073709551616"), None);
    assert_eq!(parse_seconds("99999999999999999999999"), None);
    assert_eq!(parse_seconds("00000000000000000000000000001"), Some(1));
}

#[test]
fn other_text_names_no_seconds() {
    assert_eq!(parse_seconds(""), None);
    assert_eq!(parse_seconds("+"), None);
    assert_eq!(parse_seconds("-1"), None);
    assert_eq!(parse_seconds("++1"), None);
    assert_eq!(parse_seconds("1+"), None);
    assert_eq!(parse_seconds(" 3"), None);
    assert_eq!(parse_seconds("3 "), None);
    assert_eq!(parse_seconds("3s"), None);
    assert_eq!(parse_seconds("1.5"), None);
    assert_eq!(parse_seconds("Wed, 21 Oct 2015 07:28:00 GMT"), None);
}

#[test]
fn seconds_agree_with_the_standard_parser() {
    for text in ["12", "+12", "012", "", "+", "x", "12x", "-0", "18446744073709551615", "18446744073709551616"] {
        assert_eq!(parse_seconds(text), text.parse::<u64>().ok());
    }
}

#[test]
fn status_429_is_a_rate_limit() {
    assert_eq!(TOO_MANY_REQUESTS, 429);
    assert_eq!(
        status_error(429, Some("12"), "answer"),
        ApiError::RateLimited { retry_after_secs: Some(12) }
    );
    assert_eq!(status_error(429, None, "answer"), ApiError::RateLimited { retry_after_secs: None });
    assert_eq!(
        status_error(429, Some("soon"), "answer"),
        ApiError::RateLimited { retry_after_secs: None }
    );
}

#[test]
fn other_statuses_are_errors_for_good() {
    assert_eq!(status_error(401, Some("3"), "answer"), ApiError::Other("answer"));
    assert_eq!(status_error(404, None, "answer"), ApiError::Other("answer"));
    assert_eq!(status_error(500, None, "answer"), ApiError::Other("answer"));
    assert_eq!(status_error(428, Some("1"), "answer"), ApiError::Other("answer"));
    assert_eq!(status_error(430, Some("1"), "answer"), ApiError::Other("answer"));
}

#[test]
fn rate_limited_answer_without_seconds_waits_one_second() {
    let outcome: Result<u8, ApiError<&str>> = Err(status_error(429, Some("later"), "answer"));
    assert_eq!(retry_step(outcome), RetryStep::Wait(1));
    let outcome: Result<u8, ApiError<&str>> = Err(status_error(429, Some("17"), "answer"));
    assert_eq!(retry_step(outcome), RetryStep::Wait(17));
}
