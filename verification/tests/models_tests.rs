use chainbot::models::ChatChain;
use chainbot::models::NewChatChain;

#[test]
fn new_chat_chain_borrows_its_fields() {
    let id: i64 = 42;
    let text = "(~)".to_string();
    let row = NewChatChain::new(&id, &text);
    assert_eq!(*row.chat_id, 42);
    assert_eq!(row.chain, "(~)");
}

#[test]
fn chat_chain_holds_plain_fields() {
    let row = ChatChain { chat_id: 7, chain: "(~)".to_string() };
    assert_eq!(row.chat_id, 7);
    assert_eq!(row.chain, "(~)");
}
