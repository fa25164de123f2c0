use kb_engine::chatlog::{
    create_conversation, delete_conversation, delete_message, messages_of_conversation,
    save_message, sort_conversations, update_conversation_folder, update_conversation_pinned,
    update_conversation_tags, update_conversation_title, update_message_content, Conversation,
    Message, SearchConversationResult, SourceReference, StreamStarted, StreamingChunk,
};
use kb_engine::registry::{
    add_bucket, add_bucket_file, files_of_bucket, new_bucket, new_bucket_file, remove_bucket,
    remove_bucket_file, update_bucket_file_count, Bucket, BucketFile,
};

fn bucket(id: &str, name: &str) -> Bucket {
    new_bucket(id.to_string(), name.to_string(), String::new(), "2024-01-01T00:00:00Z".to_string())
}

fn bucket_file(id: &str, bucket_id: &str, filename: &str, chunks: i32) -> BucketFile {
    new_bucket_file(
        id.to_string(),
        bucket_id.to_string(),
        filename.to_string(),
        "txt".to_string(),
        42,
        chunks,
        "2024-01-01T00:00:00Z".to_string(),
    )
}

#[test]
fn new_bucket_starts_with_no_documents() {
    let b = bucket("b1", "notes");
    assert_eq!(b.id, "b1");
    assert_eq!(b.name, "notes");
    assert_eq!(b.file_count, 0);
}

#[test]
fn registry_tracks_documents_per_bucket() {
    let mut buckets: Vec<Bucket> = Vec::new();
    add_bucket(&mut buckets, bucket("b1", "notes"));
    add_bucket(&mut buckets, bucket("b2", "papers"));
    let mut files: Vec<BucketFile> = Vec::new();
    add_bucket_file(&mut files, bucket_file("f1", "b1", "a.txt", 2));
    add_bucket_file(&mut files, bucket_file("f2", "b2", "b.pdf", 3));
    add_bucket_file(&mut files, bucket_file("f3", "b1", "c.md", 1));

    let of_b1 = files_of_bucket(&files, "b1");
    assert_eq!(of_b1.len(), 2);
    assert_eq!(of_b1[0].filename, "a.txt");
    assert_eq!(of_b1[1].filename, "c.md");

    update_bucket_file_count(&mut buckets, &files, "b1");
    assert_eq!(buckets[0].file_count, 2);
    assert_eq!(buckets[1].file_count, 0);

    remove_bucket_file(&mut files, "f1");
    update_bucket_file_count(&mut buckets, &files, "b1");
    assert_eq!(buckets[0].file_count, 1);
    assert_eq!(files.len(), 2);

    remove_bucket(&mut buckets, "b1");
    assert_eq!(buckets.len(), 1);
    assert_eq!(buckets[0].id, "b2");
}

#[test]
fn update_file_count_on_missing_bucket_changes_nothing() {
    let mut buckets: Vec<Bucket> = Vec::new();
    add_bucket(&mut buckets, bucket("b1", "notes"));
    let files: Vec<BucketFile> = Vec::new();
    update_bucket_file_count(&mut buckets, &files, "nope");
    assert_eq!(buckets.len(), 1);
    assert_eq!(buckets[0].file_count, 0);
}

fn conversation(id: &str, title: &str) -> Conversation {
    Conversation {
        id: id.to_string(),
        title: title.to_string(),
        created_at: "2024-01-01T00:00:00Z".to_string(),
        updated_at: "2024-01-02T00:00:00Z".to_string(),
        pinned: false,
        tags: Vec::new(),
        folder: None,
    }
}

fn message(id: &str, conversation_id: &str, content: &str) -> Message {
    Message {
        id: id.to_string(),
        conversation_id: conversation_id.to_string(),
        role: "user".to_string(),
        content: content.to_string(),
        provider: "test".to_string(),
        model: "test-model".to_string(),
        created_at: "2024-01-01T00:00:00Z".to_string(),
        sources: Some(vec![SourceReference {
            filename: "doc.txt".to_string(),
            score: 950_000,
            content: "cited text".to_string(),
        }]),
    }
}

#[test]
fn conversations_are_created_in_front() {
    let mut conversations: Vec<Conversation> = Vec::new();
    create_conversation(&mut conversations, conversation("c1", "first"));
    create_conversation(&mut conversations, conversation("c2", "second"));
    assert_eq!(conversations[0].id, "c2");
    assert_eq!(conversations[1].id, "c1");
}

#[test]
fn deleting_a_conversation_takes_its_messages() {
    let mut conversations: Vec<Conversation> = Vec::new();
    create_conversation(&mut conversations, conversation("c1", "one"));
    create_conversation(&mut conversations, conversation("c2", "two"));
    let mut messages: Vec<Message> = Vec::new();
    save_message(&mut messages, message("m1", "c1", "hi"));
    save_message(&mut messages, message("m2", "c2", "hello"));
    save_message(&mut messages, message("m3", "c1", "again"));

    delete_conversation(&mut conversations, &mut messages, "c1");
    assert_eq!(conversations.len(), 1);
    assert_eq!(conversations[0].id, "c2");
    assert_eq!(messages.len(), 1);
    assert_eq!(messages[0].id, "m2");
}

#[test]
fn deleting_a_message_keeps_the_rest_in_order() {
    let mut messages: Vec<Message> = Vec::new();
    save_message(&mut messages, message("m1", "c1", "one"));
    save_message(&mut messages, message("m2", "c1", "two"));
    save_message(&mut messages, message("m3", "c1", "three"));
    delete_message(&mut messages, "m2");
    assert_eq!(messages.len(), 2);
    assert_eq!(messages[0].id, "m1");
    assert_eq!(messages[1].id, "m3");
}

#[test]
fn retitling_touches_only_the_named_conversation() {
    let mut conversations: Vec<Conversation> = Vec::new();
    create_conversation(&mut conversations, conversation("c1", "old"));
    create_conversation(&mut conversations, conversation("c2", "other"));
    update_conversation_title(&mut conversations, "c1", "new title");
    assert_eq!(conversations[1].title, "new title");
    assert_eq!(conversations[0].title, "other");
    update_conversation_pinned(&mut conversations, "c1", true);
    assert!(conversations[1].pinned);
    assert!(!conversations[0].pinned);
}

#[test]
fn conversations_sort_pinned_first_then_most_recent() {
    let mut conversations: Vec<Conversation> = Vec::new();
    let mut old_pinned = conversation("c1", "old pinned");
    old_pinned.updated_at = "2024-01-01T00:00:00Z".to_string();
    old_pinned.pinned = true;
    let mut newer = conversation("c2", "newer");
    newer.updated_at = "2024-03-01T00:00:00Z".to_string();
    let mut older = conversation("c3", "older");
    older.updated_at = "2024-02-01T00:00:00Z".to_string();
    conversations.push(older);
    conversations.push(newer);
    conversations.push(old_pinned);
    sort_conversations(&mut conversations);
    assert_eq!(conversations[0].id, "c1");
    assert_eq!(conversations[1].id, "c2");
    assert_eq!(conversations[2].id, "c3");
}

#[test]
fn conversations_sort_is_stable_on_equal_keys() {
    let mut conversations: Vec<Conversation> = Vec::new();
    conversations.push(conversation("c1", "first"));
    conversations.push(conversation("c2", "second"));
    sort_conversations(&mut conversations);
    assert_eq!(conversations[0].id, "c1");
    assert_eq!(conversations[1].id, "c2");
}

#[test]
fn transcript_is_filtered_and_ordered_by_creation() {
    let mut messages: Vec<Message> = Vec::new();
    let mut late = message("m1", "c1", "late");
    late.created_at = "2024-01-03T00:00:00Z".to_string();
    let mut early = message("m2", "c1", "early");
    early.created_at = "2024-01-01T00:00:00Z".to_string();
    let other = message("m3", "c2", "elsewhere");
    save_message(&mut messages, late);
    save_message(&mut messages, early);
    save_message(&mut messages, other);
    let transcript = messages_of_conversation(messages, "c1");
    assert_eq!(transcript.len(), 2);
    assert_eq!(transcript[0].id, "m2");
    assert_eq!(transcript[1].id, "m1");
}

#[test]
fn tags_and_folder_updates_touch_only_the_named_conversation() {
    let mut conversations: Vec<Conversation> = Vec::new();
    create_conversation(&mut conversations, conversation("c1", "one"));
    create_conversation(&mut conversations, conversation("c2", "two"));
    update_conversation_tags(&mut conversations, "c1", &vec!["rust".to_string(), "verus".to_string()]);
    assert_eq!(conversations[1].tags, vec!["rust", "verus"]);
    assert!(conversations[0].tags.is_empty());
    update_conversation_folder(&mut conversations, "c1", Some("work"));
    assert_eq!(conversations[1].folder.as_deref(), Some("work"));
    assert_eq!(conversations[0].folder, None);
    update_conversation_folder(&mut conversations, "c1", None);
    assert_eq!(conversations[1].folder, None);
}

#[test]
fn rewriting_a_message_touches_only_that_message() {
    let mut messages: Vec<Message> = Vec::new();
    save_message(&mut messages, message("m1", "c1", "draft"));
    save_message(&mut messages, message("m2", "c1", "other"));
    update_message_content(&mut messages, "m1", "final text");
    assert_eq!(messages[0].content, "final text");
    assert_eq!(messages[1].content, "other");
    update_message_content(&mut messages, "missing", "nothing");
    assert_eq!(messages[0].content, "final text");
    assert_eq!(messages[1].content, "other");
}

#[test]
fn stream_event_payloads_carry_their_fields() {
    let started = StreamStarted {
        message_id: "m1".to_string(),
        conversation_id: "c1".to_string(),
        provider: "test".to_string(),
        model: "test-model".to_string(),
    };
    assert_eq!(started.message_id, "m1");
    let chunk = StreamingChunk {
        message_id: "m1".to_string(),
        conversation_id: "c1".to_string(),
        delta: "hel".to_string(),
        done: false,
    };
    assert!(!chunk.done);
    let hit = SearchConversationResult {
        id: "c1".to_string(),
        title: "one".to_string(),
        updated_at: "2024-01-02T00:00:00Z".to_string(),
        snippet: "Title match".to_string(),
        pinned: false,
        tags: Vec::new(),
        folder: None,
    };
    assert_eq!(hit.snippet, "Title match");
}
