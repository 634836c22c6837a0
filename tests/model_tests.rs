use breeze_asr::model::{argmax_first, DecodeSession, EOT, MAX_LEN, SOT};

#[test]
fn argmax_keeps_first_of_equal_maxima() {
    assert_eq!(argmax_first(&[3, 7, 7, 1]), 1);
    assert_eq!(argmax_first(&[5]), 0);
    assert_eq!(argmax_first(&[0, 0, 0]), 0);
    assert_eq!(argmax_first(&[1, 2, 3, 9]), 3);
}

#[test]
fn session_stops_at_end_token() {
    let mut s = DecodeSession::new();
    assert_eq!(s.next_query(), Some((SOT, 0)));
    s.advance(10);
    assert_eq!(s.next_query(), Some((10, 1)));
    s.advance(EOT);
    assert!(s.is_finished());
    assert_eq!(s.next_query(), None);
    assert_eq!(s.tokens(), vec![SOT, 10]);
}

#[test]
fn session_stops_after_max_len_steps() {
    let mut s = DecodeSession::new();
    let mut steps = 0;
    while let Some((_, pos)) = s.next_query() {
        assert_eq!(pos, steps);
        s.advance(7);
        steps += 1;
    }
    assert_eq!(steps, MAX_LEN);
    let tokens = s.tokens();
    assert_eq!(tokens.len(), MAX_LEN + 1);
    assert_eq!(tokens[0], SOT);
    assert!(!tokens.contains(&EOT));
}

#[test]
fn greedy_step_takes_best_score() {
    let mut s = DecodeSession::new();
    s.advance_greedy(&[1, 4, 4, 2]);
    assert_eq!(s.tokens(), vec![SOT, 1]);
    let mut scores = vec![0u32; (EOT as usize) + 1];
    scores[EOT as usize] = 9;
    s.advance_greedy(&scores);
    assert!(s.is_finished());
    assert_eq!(s.tokens(), vec![SOT, 1]);
}
