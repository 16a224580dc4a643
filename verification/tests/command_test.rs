use search_engine::command::{classify_command, Command};

#[test]
fn prompt_lines_are_classified() {
    assert_eq!(classify_command("alpha bravo"), Command::Query);
    assert_eq!(classify_command(""), Command::Query);
    assert_eq!(classify_command(":q"), Command::Quit);
    assert_eq!(classify_command(":quit"), Command::Quit);
    assert_eq!(classify_command(":o doc1.txt"), Command::Open);
    assert_eq!(classify_command(":open doc1.txt"), Command::Open);
    assert_eq!(classify_command(":s running"), Command::Stem);
    assert_eq!(classify_command(":stem running"), Command::Stem);
    assert_eq!(classify_command(":i docs"), Command::Index);
    assert_eq!(classify_command(":index docs"), Command::Index);
    assert_eq!(classify_command(":v"), Command::Vocab);
    assert_eq!(classify_command(":vocab"), Command::Vocab);
    assert_eq!(classify_command(":k"), Command::KGram);
    assert_eq!(classify_command(":kgram"), Command::KGram);
    assert_eq!(classify_command(":enable k"), Command::EnableKGram);
    assert_eq!(classify_command(":enable kgram"), Command::EnableKGram);
    assert_eq!(classify_command(":disable k"), Command::DisableKGram);
    assert_eq!(classify_command(":disable kgram"), Command::DisableKGram);
    assert_eq!(classify_command(":h"), Command::Help);
    assert_eq!(classify_command(":help"), Command::Help);
    assert_eq!(classify_command(":open"), Command::Invalid);
    assert_eq!(classify_command(":qq"), Command::Invalid);
    assert_eq!(classify_command(":x"), Command::Invalid);
}
