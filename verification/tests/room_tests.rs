use shiritori::fuzzy_index::MatchMode;
use shiritori::room::RoomManager;
use shiritori::room::RoomState;
use shiritori::room::SaveError;
use shiritori::room::VoteOutcome;
use shiritori::room::cast_vote;
use shiritori::room::add_queue;
use shiritori::room::apply_meaning;
use shiritori::room::apply_similar_words;
use shiritori::room::majority;
use shiritori::room::propose_word;
use shiritori::room::reaction_vote_kind;
use shiritori::room::set_queue;
use shiritori::room::set_vote_message;
use shiritori::room::skip_turn;

fn room_with_queue(queue: &[u64]) -> RoomState {
    let mut room = RoomState::new(1);
    room.ensure_index();
    let _ = set_queue(&mut room, queue.to_vec());
    room
}

#[test]
fn majority_boundaries() {
    assert_eq!(majority(0), 1);
    assert_eq!(majority(1), 1);
    assert_eq!(majority(2), 2);
    assert_eq!(majority(3), 2);
    assert_eq!(majority(4), 3);
    assert_eq!(majority(5), 3);
}

#[test]
fn accepted_word_rotates_queue_and_enters_index() {
    let mut room = room_with_queue(&[1, 2, 3]);
    let _ = propose_word(&mut room, 1, "apple".to_string());
    set_vote_message(&mut room, 10);

    let r = cast_vote(&mut room, 2, true, false);
    assert!(matches!(r, VoteOutcome::Pending { .. }));

    let r = cast_vote(&mut room, 3, true, false);
    match r {
        VoteOutcome::Accepted { message_id, message } => {
            assert_eq!(message_id, 10);
            assert_eq!(
                message,
                "投票終了！結果: YES(2) / NO(0)\n\"apple\"は可決されました。\n次は<@2> の番です。"
            );
        },
        other => panic!("expected acceptance, got {:?}", outcome_name(&other)),
    }
    assert_eq!(room.user_queue, vec![2, 3, 1]);
    assert_eq!(
        room.index.as_ref().unwrap().search_match("apple", MatchMode::Exact),
        vec!["apple".to_string()]
    );
    // the coordinator is idle again
    assert!(room.vote_state.target_word.is_none());
    assert!(room.vote_state.good_users.is_empty());
}

#[test]
fn rejected_word_keeps_queue_and_index() {
    let mut room = room_with_queue(&[1, 2, 3]);
    let _ = propose_word(&mut room, 1, "apple".to_string());
    set_vote_message(&mut room, 10);

    let r = cast_vote(&mut room, 2, false, false);
    assert!(matches!(r, VoteOutcome::Pending { .. }));

    let r = cast_vote(&mut room, 3, false, false);
    match r {
        VoteOutcome::Rejected { message_id, message } => {
            assert_eq!(message_id, 10);
            assert_eq!(
                message,
                "投票終了！結果: NO(2) / YES(0)\n\"apple\"は否決されました。\n<@1> は、別の回答をしてください。"
            );
        },
        other => panic!("expected rejection, got {:?}", outcome_name(&other)),
    }
    assert_eq!(room.user_queue, vec![1, 2, 3]);
    assert_eq!(
        room.index.as_ref().unwrap().search_match("apple", MatchMode::Exact),
        Vec::<String>::new()
    );
}

#[test]
fn good_then_bad_leaves_one_ballot() {
    let mut room = room_with_queue(&[1, 2, 3, 4, 5]);
    let _ = propose_word(&mut room, 1, "apple".to_string());
    set_vote_message(&mut room, 10);

    let _ = cast_vote(&mut room, 2, true, false);
    assert_eq!(room.vote_state.good_users, vec![2]);
    assert_eq!(room.vote_state.bad_users, Vec::<u64>::new());

    let _ = cast_vote(&mut room, 2, false, false);
    assert_eq!(room.vote_state.good_users, Vec::<u64>::new());
    assert_eq!(room.vote_state.bad_users, vec![2]);
}

#[test]
fn cancel_clears_both_sides() {
    let mut room = room_with_queue(&[1, 2, 3, 4, 5]);
    let _ = propose_word(&mut room, 1, "apple".to_string());
    set_vote_message(&mut room, 10);

    let _ = cast_vote(&mut room, 2, true, false);
    let _ = cast_vote(&mut room, 2, false, true);
    assert_eq!(room.vote_state.good_users, Vec::<u64>::new());
    assert_eq!(room.vote_state.bad_users, Vec::<u64>::new());
}

#[test]
fn proposer_ballot_is_ignored() {
    let mut room = room_with_queue(&[1, 2]);
    let _ = propose_word(&mut room, 1, "apple".to_string());
    set_vote_message(&mut room, 10);

    // a queue of two needs two matching ballots; the proposer's own
    // ballot must not resolve anything or be recorded
    let r = cast_vote(&mut room, 1, true, false);
    assert!(matches!(r, VoteOutcome::Ignored));
    assert_eq!(room.vote_state.good_users, Vec::<u64>::new());
    assert_eq!(room.vote_state.bad_users, Vec::<u64>::new());
    assert_eq!(room.user_queue, vec![1, 2]);
}

#[test]
fn ballot_without_proposal_is_ignored() {
    let mut room = room_with_queue(&[1, 2, 3]);
    let r = cast_vote(&mut room, 2, true, false);
    assert!(matches!(r, VoteOutcome::Ignored));
}

#[test]
fn new_proposal_overwrites_the_old_one() {
    let mut room = room_with_queue(&[1, 2, 3]);
    let _ = propose_word(&mut room, 1, "apple".to_string());
    set_vote_message(&mut room, 10);
    let _ = cast_vote(&mut room, 2, true, false);

    // the latest word wins; ballots on the superseded proposal vanish
    let _ = propose_word(&mut room, 1, "grape".to_string());
    assert_eq!(room.vote_state.target_word, Some("grape".to_string()));
    assert_eq!(room.vote_state.good_users, Vec::<u64>::new());
    assert!(room.vote_state.vote_message.is_none());
}

#[test]
fn enrichment_of_current_word_rerenders() {
    let mut room = room_with_queue(&[1, 2]);
    let _ = propose_word(&mut room, 1, "apple".to_string());
    let rendered = apply_similar_words(&mut room, "apple", vec!["ample".to_string()]);
    assert!(rendered.is_some());
    assert!(rendered.unwrap().contains("ample"));
    let rendered = apply_meaning(&mut room, "apple", "りんご".to_string());
    assert!(rendered.is_some());
    assert!(rendered.unwrap().contains("りんご"));
}

#[test]
fn enrichment_of_superseded_word_is_silent() {
    let mut room = room_with_queue(&[1, 2]);
    let _ = propose_word(&mut room, 1, "apple".to_string());
    let _ = propose_word(&mut room, 1, "grape".to_string());
    let rendered = apply_similar_words(&mut room, "apple", vec!["ample".to_string()]);
    assert!(rendered.is_none());
    let rendered = apply_meaning(&mut room, "apple", "りんご".to_string());
    assert!(rendered.is_none());
}

#[test]
fn skip_rotates_and_abandons_the_proposal() {
    let mut room = room_with_queue(&[1, 2, 3]);
    let _ = propose_word(&mut room, 1, "apple".to_string());
    let message = skip_turn(&mut room, 1);
    assert_eq!(room.user_queue, vec![2, 3, 1]);
    assert!(room.vote_state.target_word.is_none());
    assert_eq!(message, "<@1> をスキップしました。\n次は <@2> の番です。");
    // skipping wraps around the queue length
    let _ = skip_turn(&mut room, 5);
    assert_eq!(room.user_queue, vec![1, 2, 3]);
}

#[test]
fn skip_of_empty_queue_reports_nobody() {
    let mut room = RoomState::new(7);
    let message = skip_turn(&mut room, 2);
    assert_eq!(message, "スキップする対象がいません。");
}

#[test]
fn set_queue_keeps_old_order_when_empty() {
    let mut room = room_with_queue(&[1, 2]);
    let _ = set_queue(&mut room, vec![]);
    assert_eq!(room.user_queue, vec![1, 2]);
    let _ = set_queue(&mut room, vec![5, 6]);
    assert_eq!(room.user_queue, vec![5, 6]);
}

#[test]
fn add_queue_appends() {
    let mut room = room_with_queue(&[1]);
    let _ = add_queue(&mut room, 9);
    assert_eq!(room.user_queue, vec![1, 9]);
}

#[test]
fn reactions_map_to_ballots() {
    assert_eq!(reaction_vote_kind("👍"), Some(true));
    assert_eq!(reaction_vote_kind("👎"), Some(false));
    assert_eq!(reaction_vote_kind("🦀"), None);
    assert_eq!(reaction_vote_kind(""), None);
}

#[test]
fn save_before_load_is_refused() {
    let room = RoomState::new(3);
    assert_eq!(room.encode_words(), Err(SaveError::NotLoaded));
    let mut room = room;
    room.ensure_index();
    assert!(room.encode_words().is_ok());
}

#[test]
fn registry_creates_each_room_once() {
    let mut mgr = RoomManager::new();
    assert!(!mgr.has_room(1));
    mgr.create_room(1);
    mgr.create_room(2);
    mgr.create_room(1);
    assert!(mgr.has_room(1));
    assert!(mgr.has_room(2));
    assert!(!mgr.has_room(3));
    assert_eq!(mgr.room_count(), 2);
    assert_eq!(mgr.room_at(0).room_id, 1);
    assert_eq!(mgr.room_at(1).room_id, 2);
}

#[test]
fn registry_hands_rooms_out_and_back() {
    let mut mgr = RoomManager::new();
    mgr.create_room(1);
    mgr.create_room(2);
    let mut room = mgr.take_room(1).expect("room 1 exists");
    assert!(!mgr.has_room(1));
    let _ = add_queue(&mut room, 42);
    mgr.put_room(room);
    assert!(mgr.has_room(1));
    assert!(mgr.take_room(9).is_none());
    let drained = mgr.take_all();
    assert_eq!(drained.len(), 2);
    assert_eq!(mgr.room_count(), 0);
}

fn outcome_name(r: &VoteOutcome) -> &'static str {
    match r {
        VoteOutcome::Ignored => "ignored",
        VoteOutcome::Accepted { .. } => "accepted",
        VoteOutcome::Rejected { .. } => "rejected",
        VoteOutcome::Pending { .. } => "pending",
    }
}
