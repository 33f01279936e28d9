use ephie::command::{split_two, Command};

#[test]
fn test_cd_to_bytes() {
    let target_dir = "Documents";
    let user = 100u8;
    let command = Command::CD(target_dir.to_string());
    let out = command.to_bytes(user);
    let mut expected = vec![user, command.opt_code(), target_dir.len() as u8];
    expected.extend(target_dir.as_bytes());
    assert_eq!(out, expected)
}

#[test]
fn test_ls_to_bytes() {
    let command = Command::LS;
    let user = 100u8;
    let out = command.to_bytes(user);
    let expected = vec![user, command.opt_code(), 0];
    assert_eq!(out, expected)
}

#[test]
fn test_from_opt() {
    let opts = vec![
        (1u8, "Documents".to_string()),
        (2, "NewDir".to_string()),
        (3, "".to_string()),
    ];
    let expected = vec![
        Command::CD("Documents".to_string()),
        Command::MKDIR("NewDir".to_string()),
        Command::PWD,
    ];
    let out = opts
        .into_iter()
        .map(|o| Command::from(o))
        .collect::<Vec<Command>>();
    assert_eq!(expected, out)
}

// Round trip: decoding an (opcode, argument) pair and re-encoding the
// command reproduces the opcode and argument bytes, for every variant.
#[test]
fn test_round_trip_all_opcodes() {
    let user = 7u8;
    for opcode in [1u8, 2, 6, 7, 8, 9, 10, 11, 12] {
        let cmd = Command::from((opcode, "some/path".to_string()));
        let bytes = cmd.to_bytes(user);
        assert_eq!(bytes[0], user);
        assert_eq!(bytes[1], opcode);
        assert_eq!(bytes[2] as usize, "some/path".len());
        assert_eq!(&bytes[3..], "some/path".as_bytes());
    }
    for opcode in [3u8, 4, 5] {
        let cmd = Command::from((opcode, "".to_string()));
        let bytes = cmd.to_bytes(user);
        assert_eq!(bytes, vec![user, opcode, 0]);
    }
    let unknown = Command::from((200u8, "".to_string()));
    assert_eq!(unknown, Command::UNKNOWN);
    assert_eq!(unknown.to_bytes(user), vec![user, 255, 0]);
}

#[test]
fn test_split_two_well_formed() {
    let parts = split_two("file.txt~%%~hello there").unwrap();
    assert_eq!(parts.0, "file.txt");
    assert_eq!(parts.1, "hello there");
}

#[test]
fn test_split_two_rejects_wrong_counts() {
    assert!(split_two("no delimiter here").is_none());
    assert!(split_two("a~%%~b~%%~c").is_none());
}

#[test]
fn test_opt_codes_are_stable() {
    assert_eq!(Command::UNKNOWN.opt_code(), 255);
    assert_eq!(Command::CD(String::new()).opt_code(), 1);
    assert_eq!(Command::MKDIR(String::new()).opt_code(), 2);
    assert_eq!(Command::PWD.opt_code(), 3);
    assert_eq!(Command::LS.opt_code(), 4);
    assert_eq!(Command::WHO.opt_code(), 5);
    assert_eq!(Command::RM(String::new()).opt_code(), 6);
    assert_eq!(Command::TOUCH(String::new()).opt_code(), 7);
    assert_eq!(Command::READ(String::new()).opt_code(), 8);
    assert_eq!(Command::WRITE(String::new()).opt_code(), 9);
    assert_eq!(Command::FIND(String::new()).opt_code(), 10);
    assert_eq!(Command::CP(String::new()).opt_code(), 11);
    assert_eq!(Command::MV(String::new()).opt_code(), 12);
}

#[test]
fn test_from_typed_words() {
    assert_eq!(
        Command::from_parts("cd", "Documents"),
        Command::CD("Documents".to_string())
    );
    assert_eq!(
        Command::from_parts("write", "a~%%~b"),
        Command::WRITE("a~%%~b".to_string())
    );
    assert_eq!(Command::from_parts("ls", "ignored"), Command::LS);
    assert_eq!(Command::from_parts("frobnicate", "x"), Command::UNKNOWN);
    assert_eq!(Command::from_word("pwd"), Command::PWD);
    assert_eq!(Command::from_word("whoami"), Command::WHO);
    assert_eq!(Command::from_word("ls"), Command::LS);
    assert_eq!(Command::from_word("cd"), Command::UNKNOWN);
}
