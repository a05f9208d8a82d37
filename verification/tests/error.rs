use process_reaper::error::{Fatal, InvalidThreshold, ProcessReaperError};

#[test]
fn an_error_shows_its_text_behind_a_prefix() {
    let error = ProcessReaperError::new("Memory percentage >= 100%");
    assert_eq!(error.text(), "Memory percentage >= 100%");
    assert_eq!(error.message(), "Error: Memory percentage >= 100%");
    assert_eq!(ProcessReaperError::new("").message(), "Error: ");
}

#[test]
fn every_refusal_has_its_text() {
    assert_eq!(
        InvalidThreshold::PercentageTooLarge.to_error().text(),
        "Memory percentage >= 100%"
    );
    assert_eq!(
        InvalidThreshold::MalformedPercentage.to_error().text(),
        "Memory percentage is not a number"
    );
    assert_eq!(
        InvalidThreshold::MalformedSize.to_error().text(),
        "Memory limit is not a byte size"
    );
    assert_eq!(
        InvalidThreshold::MalformedSize.to_error().message(),
        "Error: Memory limit is not a byte size"
    );
}

#[test]
fn every_fatal_cause_has_its_text() {
    assert_eq!(
        Fatal::NotificationFailed.to_error().text(),
        "Failed to pet systemd watchdog"
    );
    assert_eq!(
        Fatal::SamplerUnavailable.to_error().message(),
        "Error: Failed to sample the process table"
    );
}
