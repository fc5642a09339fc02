use fed::fed_core::{Core, CoreCommand, CoreCommandError, CoreEvent, CoreReply, Creation, DocumentId, SliceBound};

fn whole(id: u64) -> CoreCommand {
    CoreCommand::GetSlice { id: DocumentId(id), start: SliceBound::Unbounded, end: SliceBound::Unbounded }
}

#[test]
fn batch_runs_in_order_and_skips_nested_batches() {
    let mut core = Core::new();
    let r = core.process_command(CoreCommand::Batch(vec![
        CoreCommand::Create { path: None },
        CoreCommand::Insert { id: DocumentId(0), pos: 0, str: "hello".to_string() },
        CoreCommand::Batch(vec![CoreCommand::Append { id: DocumentId(0), str: "x".to_string() }]),
        CoreCommand::Append { id: DocumentId(0), str: " world".to_string() },
        CoreCommand::Len { id: DocumentId(0) },
    ]));
    assert_eq!(r.len(), 5);
    assert_eq!(r[0], (CoreReply::Create(Creation::Done(DocumentId(0))), Some(CoreEvent::Created { id: DocumentId(0) })));
    assert_eq!(
        r[1],
        (CoreReply::Nothing, Some(CoreEvent::Inserted { id: DocumentId(0), pos: 0, str: "hello".to_string() }))
    );
    assert_eq!(r[2], (CoreReply::Nothing, None));
    assert_eq!(
        r[3],
        (CoreReply::Nothing, Some(CoreEvent::Inserted { id: DocumentId(0), pos: 5, str: " world".to_string() }))
    );
    assert_eq!(r[4], (CoreReply::Count(Ok(11)), None));
    let s = core.process_command(whole(0));
    assert_eq!(s, vec![(CoreReply::Text(Ok("hello world".to_string())), None)]);
}

#[test]
fn a_file_document_is_created_once_read() {
    let mut core = Core::new();
    let r = core.process_command(CoreCommand::Create { path: Some("notes.txt".to_string()) });
    assert_eq!(r, vec![(CoreReply::Create(Creation::Pending("notes.txt".to_string())), None)]);
    assert!(!core.contains(DocumentId(0)));
    let (id, ev) = core.finalize_create("notes.txt".to_string(), Ok("a\nb".to_string()));
    assert_eq!(id, Ok(DocumentId(0)));
    assert_eq!(ev, Some(CoreEvent::Created { id: DocumentId(0) }));
    let r = core.process_command(CoreCommand::Lines { id: DocumentId(0) });
    assert_eq!(r[0].0, CoreReply::Count(Ok(2)));
    let r = core.process_command(CoreCommand::GetPath { id: DocumentId(0) });
    assert_eq!(r[0].0, CoreReply::Path(Ok(Some("notes.txt".to_string()))));
    let (e, ev) = core.finalize_create("gone.txt".to_string(), Err("no such file".to_string()));
    assert_eq!(e, Err(CoreCommandError::FileIo("no such file".to_string())));
    assert_eq!(ev, None);
}

#[test]
fn splitting_a_character_is_refused() {
    let mut core = Core::new();
    core.process_command(CoreCommand::Create { path: None });
    core.process_command(CoreCommand::Insert { id: DocumentId(0), pos: 0, str: "é!".to_string() });
    let r = core.process_command(CoreCommand::GetSlice {
        id: DocumentId(0),
        start: SliceBound::Included(0),
        end: SliceBound::Excluded(1),
    });
    assert_eq!(r, vec![(CoreReply::Refused, None)]);
    let r = core.process_command(CoreCommand::Remove { id: DocumentId(0), pos: 1, n: 1 });
    assert_eq!(r, vec![(CoreReply::Refused, None)]);
    let r = core.process_command(CoreCommand::Remove { id: DocumentId(0), pos: 0, n: 2 });
    assert_eq!(
        r,
        vec![(CoreReply::Nothing, Some(CoreEvent::Removed { id: DocumentId(0), pos: 0, n: 2, str: "é".to_string() }))]
    );
    assert_eq!(core.process_command(whole(0))[0].0, CoreReply::Text(Ok("!".to_string())));
}

#[test]
fn unknown_documents_are_reported() {
    let mut core = Core::new();
    let r = core.process_command(CoreCommand::IsModified { id: DocumentId(3) });
    assert_eq!(r[0].0, CoreReply::Flag(Err(CoreCommandError::NoDocument)));
    let r = core.process_command(CoreCommand::GetLineStartByte { id: DocumentId(3), n: 0 });
    assert_eq!(r[0].0, CoreReply::Count(Err(CoreCommandError::NoDocument)));
    let r = core.process_command(CoreCommand::Insert { id: DocumentId(3), pos: 0, str: "a".to_string() });
    assert_eq!(r, vec![(CoreReply::Nothing, None)]);
}

#[test]
fn a_modified_document_is_destroyed_only_by_force() {
    let mut core = Core::new();
    core.process_command(CoreCommand::Create { path: None });
    core.process_command(CoreCommand::Append { id: DocumentId(0), str: "x".to_string() });
    let r = core.process_command(CoreCommand::Destroy { id: DocumentId(0), force: false });
    assert_eq!(r, vec![(CoreReply::Unit(Err(CoreCommandError::UnsavedChanges)), None)]);
    let r = core.process_command(CoreCommand::Destroy { id: DocumentId(0), force: true });
    assert_eq!(r, vec![(CoreReply::Unit(Ok(())), Some(CoreEvent::Destroyed { id: DocumentId(0) }))]);
    assert!(!core.contains(DocumentId(0)));
}

#[test]
fn saving_needs_a_path_and_clears_the_modified_flag() {
    let mut core = Core::new();
    core.process_command(CoreCommand::Create { path: None });
    let r = core.process_command(CoreCommand::Save { id: DocumentId(0) });
    assert_eq!(r[0].0, CoreReply::Save(Err(CoreCommandError::NoPath)));
    core.process_command(CoreCommand::SetPath { id: DocumentId(0), path: Some("out.txt".to_string()) });
    core.process_command(CoreCommand::Append { id: DocumentId(0), str: "abc".to_string() });
    let r = core.process_command(CoreCommand::Save { id: DocumentId(0) });
    match &r[0].0 {
        CoreReply::Save(Ok(job)) => {
            assert_eq!(job.path, "out.txt");
            assert_eq!(job.len, 3);
            assert_eq!(job.data, "abc");
        },
        other => panic!("unexpected answer {:?}", other),
    }
    let (res, ev) = core.finalize_save(DocumentId(0), "out.txt".to_string(), 3, Ok(()));
    assert_eq!(res, Ok(3));
    assert_eq!(ev, Some(CoreEvent::Saved { id: DocumentId(0), path: "out.txt".to_string(), len: 3 }));
    assert_eq!(core.process_command(CoreCommand::IsModified { id: DocumentId(0) })[0].0, CoreReply::Flag(Ok(false)));
}

#[test]
fn undo_and_redo_through_commands() {
    let mut core = Core::new();
    core.process_command(CoreCommand::Create { path: None });
    core.process_command(CoreCommand::Batch(vec![
        CoreCommand::StartCommit { id: DocumentId(0) },
        CoreCommand::Insert { id: DocumentId(0), pos: 0, str: "ab".to_string() },
        CoreCommand::EndCommit { id: DocumentId(0) },
    ]));
    assert_eq!(core.process_command(whole(0))[0].0, CoreReply::Text(Ok("ab".to_string())));
    core.process_command(CoreCommand::Undo { id: DocumentId(0) });
    assert_eq!(core.process_command(whole(0))[0].0, CoreReply::Text(Ok(String::new())));
    core.process_command(CoreCommand::HotRedo { id: DocumentId(0) });
    assert_eq!(core.process_command(whole(0))[0].0, CoreReply::Text(Ok("ab".to_string())));
}

#[test]
fn line_bytes_through_commands() {
    let mut core = Core::new();
    core.process_command(CoreCommand::Create { path: None });
    core.process_command(CoreCommand::Append { id: DocumentId(0), str: "ab\ncd\n".to_string() });
    assert_eq!(
        core.process_command(CoreCommand::GetLineStartByte { id: DocumentId(0), n: 1 })[0].0,
        CoreReply::Count(Ok(3))
    );
    assert_eq!(
        core.process_command(CoreCommand::GetLineEndByte { id: DocumentId(0), n: 0 })[0].0,
        CoreReply::Count(Ok(3))
    );
    assert_eq!(core.process_command(CoreCommand::Lines { id: DocumentId(0) })[0].0, CoreReply::Count(Ok(3)));
}
