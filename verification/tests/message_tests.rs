use shiritori::message::TryMessageBuilder;
use shiritori::message::build_prompt;
use shiritori::message::generate_add_queue_message;
use shiritori::message::generate_added_words_message;
use shiritori::message::generate_find_message;
use shiritori::message::generate_register_message;
use shiritori::message::generate_set_queue_message;
use shiritori::message::mention_string;
use shiritori::message::number_string;

#[test]
fn numbers_render_in_decimal() {
    assert_eq!(number_string(0), "0");
    assert_eq!(number_string(7), "7");
    assert_eq!(number_string(12345), "12345");
    assert_eq!(number_string(18446744073709551615), "18446744073709551615");
}

#[test]
fn mentions_render_with_markup() {
    assert_eq!(mention_string(42), "<@42>");
    assert_eq!(mention_string(0), "<@0>");
}

#[test]
fn register_message_depends_on_registration() {
    assert_eq!(
        generate_register_message(true),
        "このチャンネルはすでに追加されています。"
    );
    assert_eq!(
        generate_register_message(false),
        "このチャンネルをしりとりチャンネルとして追加しました。"
    );
}

#[test]
fn set_queue_message_cases() {
    assert_eq!(generate_set_queue_message(&vec![], &vec![]), "順番が設定されていません");
    assert_eq!(
        generate_set_queue_message(&vec![], &vec![4, 5]),
        "現在の順番: <@4> -> <@5>\n次は <@4> の番です。"
    );
    assert_eq!(
        generate_set_queue_message(&vec![7, 8, 9], &vec![4]),
        "<@7> -> <@8> -> <@9> の順番に設定しました。\n次は <@7> の番です。"
    );
}

#[test]
fn add_queue_message_lists_the_new_order() {
    assert_eq!(
        generate_add_queue_message(&vec![1, 2], 3),
        "<@3> をゲームに追加しました。\n現在の順番は <@1>, <@2>, <@3> です。\n次は <@1> です。"
    );
    assert_eq!(
        generate_add_queue_message(&vec![], 3),
        "<@3> をゲームに追加しました。\n現在の順番は <@3> です。\n次は <@3> です。"
    );
}

#[test]
fn find_message_cases() {
    assert_eq!(
        generate_find_message("cat", &vec![]),
        "「cat」に類似する単語は見つかりませんでした。"
    );
    assert_eq!(
        generate_find_message("cat", &vec!["cat".to_string(), "cats".to_string()]),
        "「cat」に類似する単語を見つけました:\ncat\ncats"
    );
}

#[test]
fn added_words_message_cases() {
    assert_eq!(generate_added_words_message(&vec![]), "追加された単語はありません。");
    assert_eq!(
        generate_added_words_message(&vec!["cat".to_string(), "dog".to_string()]),
        "以下の単語を追加しました。```\ncat\ndog\n```"
    );
}

#[test]
fn fresh_proposal_status_shows_pending_lookups() {
    let b = TryMessageBuilder::init(1, "apple".to_string(), vec![2, 3]);
    assert_eq!(
        b.build(),
        "<@1> が apple を回答しました。\napple の意味を検索中...\napple に類似する単語を検索中...\n:timer: 投票状況 (0 / 2人 投票済み)\n\n:thumbsup: Good(0): \n:thumbsdown: Bad(0): \n:crab: 未投票(2): <@2>, <@3>\n"
    );
}

#[test]
fn status_with_lookups_and_ballots() {
    let mut b = TryMessageBuilder::init(1, "apple".to_string(), vec![2, 3, 4]);
    b.mean = Some("りんご".to_string());
    b.like_words = Some(vec!["ample".to_string()]);
    b.vote_good = vec![2];
    b.vote_bad = vec![3];
    assert_eq!(
        b.build(),
        "<@1> が apple を回答しました。\napple の意味は以下の通りです\n```\nりんご\n```\n類似する単語は以下の通りです:\n```\nample\n```\n:timer: 投票状況 (2 / 3人 投票済み)\n\n:thumbsup: Good(1): <@2>\n:thumbsdown: Bad(1): <@3>\n:crab: 未投票(1): <@4>\n"
    );
}

#[test]
fn status_with_no_similar_words_found() {
    let mut b = TryMessageBuilder::init(1, "apple".to_string(), vec![]);
    b.like_words = Some(vec![]);
    let text = b.build();
    assert!(text.contains("apple に類似する単語は回答されていません。"));
}

#[test]
fn already_answered_word_gets_the_fixed_reply() {
    let mut b = TryMessageBuilder::init(1, "apple".to_string(), vec![2, 3]);
    b.like_words = Some(vec!["apple".to_string(), "ample".to_string()]);
    assert_eq!(
        b.build(),
        "apple はすでに回答されています。\n<@1> は、別の回答を提出してください。"
    );
    let mut b = TryMessageBuilder::new();
    b.word = Some("apple".to_string());
    b.like_words = Some(vec!["apple".to_string()]);
    assert_eq!(b.build(), "apple はすでに回答されています。");
}

#[test]
fn prompt_ends_with_the_word() {
    let p = build_prompt("apple");
    assert!(p.starts_with("以下の形式で、英単語の意味を日本語で教えてください。"));
    assert!(p.ends_with("\n単語: apple"));
}
