use graphshell::identity_ui::{
    import_step, ImportNext, ImportObservation, ImportOutcome, ImportStage, NativeIdentityFailure,
    NativeIdentityUi, SystemNativeIdentityUi, UnavailableNativeIdentityUi,
    MAX_SSH_PRIVATE_KEY_BYTES,
};

/// Run the import's decisions over what the host observes, in order, and
/// return the stages performed and the outcome.
fn run(observations: &[ImportObservation]) -> (Vec<ImportStage>, Option<ImportOutcome>) {
    let mut stages = vec![ImportStage::Pick];
    for seen in observations {
        match import_step(seen) {
            ImportNext::Step(stage) => stages.push(stage),
            ImportNext::Finish(outcome) => return (stages, Some(outcome)),
        }
    }
    (stages, None)
}

#[test]
fn unavailable_ui_cannot_downgrade_to_browser_secret_input() {
    let ui = UnavailableNativeIdentityUi;
    let picked = ui.pick_ssh_private_key().map(|path| path.is_some());
    let result = import_step(&ImportObservation::Picked(picked));
    assert_eq!(
        result,
        ImportNext::Finish(ImportOutcome::Rejected(NativeIdentityFailure::UiUnavailable))
    );
    assert_eq!(
        ui.prompt_ssh_private_key_passphrase(),
        Err(NativeIdentityFailure::UiUnavailable)
    );
}

#[test]
fn an_encrypted_key_is_prompted_decrypted_and_imported() {
    let (stages, outcome) = run(&[
        ImportObservation::Picked(Ok(true)),
        ImportObservation::Checked(Some(411)),
        ImportObservation::Read(Some(411)),
        ImportObservation::Parsed(Some(true)),
        ImportObservation::Prompted(Ok(true)),
        ImportObservation::Decrypted(true),
        ImportObservation::Imported(true),
    ]);
    assert_eq!(
        stages,
        vec![
            ImportStage::Pick,
            ImportStage::Check,
            ImportStage::Read,
            ImportStage::Parse,
            ImportStage::Prompt,
            ImportStage::Decrypt,
            ImportStage::Import
        ]
    );
    assert_eq!(outcome, Some(ImportOutcome::Imported));
}

#[test]
fn an_unencrypted_key_is_never_prompted_for() {
    let (stages, outcome) = run(&[
        ImportObservation::Picked(Ok(true)),
        ImportObservation::Checked(Some(300)),
        ImportObservation::Read(Some(300)),
        ImportObservation::Parsed(Some(false)),
        ImportObservation::Imported(true),
    ]);
    assert!(!stages.contains(&ImportStage::Prompt));
    assert_eq!(outcome, Some(ImportOutcome::Imported));
}

#[test]
fn a_wrong_passphrase_is_a_bounded_refusal() {
    let (stages, outcome) = run(&[
        ImportObservation::Picked(Ok(true)),
        ImportObservation::Checked(Some(464)),
        ImportObservation::Read(Some(464)),
        ImportObservation::Parsed(Some(true)),
        ImportObservation::Prompted(Ok(true)),
        ImportObservation::Decrypted(false),
    ]);
    assert!(!stages.contains(&ImportStage::Import));
    assert_eq!(
        outcome,
        Some(ImportOutcome::Rejected(NativeIdentityFailure::IncorrectPassphrase))
    );
}

#[test]
fn cancelling_the_picker_or_the_prompt_cancels_the_import() {
    assert_eq!(
        run(&[ImportObservation::Picked(Ok(false))]).1,
        Some(ImportOutcome::Cancelled)
    );
    assert_eq!(
        import_step(&ImportObservation::Prompted(Ok(false))),
        ImportNext::Finish(ImportOutcome::Cancelled)
    );
}

#[test]
fn an_oversized_or_unreadable_file_is_refused_before_parsing() {
    assert_eq!(
        import_step(&ImportObservation::Checked(Some(MAX_SSH_PRIVATE_KEY_BYTES + 1))),
        ImportNext::Finish(ImportOutcome::Rejected(NativeIdentityFailure::SelectedFileTooLarge))
    );
    assert_eq!(
        import_step(&ImportObservation::Checked(Some(MAX_SSH_PRIVATE_KEY_BYTES))),
        ImportNext::Step(ImportStage::Read)
    );
    assert_eq!(
        import_step(&ImportObservation::Read(Some(MAX_SSH_PRIVATE_KEY_BYTES + 1))),
        ImportNext::Finish(ImportOutcome::Rejected(NativeIdentityFailure::SelectedFileTooLarge))
    );
    assert_eq!(
        import_step(&ImportObservation::Checked(None)),
        ImportNext::Finish(ImportOutcome::Rejected(NativeIdentityFailure::SelectedFileUnreadable))
    );
    assert_eq!(
        import_step(&ImportObservation::Read(None)),
        ImportNext::Finish(ImportOutcome::Rejected(NativeIdentityFailure::SelectedFileUnreadable))
    );
    assert_eq!(
        import_step(&ImportObservation::Parsed(None)),
        ImportNext::Finish(ImportOutcome::Rejected(NativeIdentityFailure::InvalidPrivateKey))
    );
    assert_eq!(
        import_step(&ImportObservation::Imported(false)),
        ImportNext::Finish(ImportOutcome::Rejected(NativeIdentityFailure::ImportRejected))
    );
    assert_eq!(MAX_SSH_PRIVATE_KEY_BYTES, 1_048_576);
}

#[test]
fn the_configured_picker_start_wins_over_the_environment() {
    let configured = SystemNativeIdentityUi::with_picker_start("/keys".to_string());
    assert_eq!(
        configured.start_location(Some("/env".to_string())),
        Some("/keys".to_string())
    );
    let plain = SystemNativeIdentityUi::default();
    assert_eq!(plain.start_location(Some("/env".to_string())), Some("/env".to_string()));
    assert_eq!(plain.start_location(None), None);
}
