use p2p_share::file::{parse_command, Command, CommandError};
use p2p_share::text::NumberError;

#[test]
fn help_exit_adj_and_repair_take_no_argument() {
    assert!(matches!(parse_command("help"), Ok(Command::Help)));
    assert!(matches!(parse_command("exit"), Ok(Command::Exit)));
    assert!(matches!(parse_command("adj"), Ok(Command::Adj)));
    assert!(matches!(parse_command("repair"), Ok(Command::Repair)));
    assert!(matches!(parse_command("exit now"), Ok(Command::Exit)));
}

#[test]
fn the_command_word_is_trimmed() {
    assert!(matches!(parse_command("adj\t"), Ok(Command::Adj)));
    assert!(matches!(parse_command("help\r"), Ok(Command::Help)));
}

#[test]
fn a_leading_space_leaves_an_empty_command_word() {
    assert_eq!(parse_command(" adj").unwrap_err(), CommandError::InvalidCommand);
}

#[test]
fn find_takes_a_file_and_starts_at_hop_power_zero() {
    match parse_command("find notes.txt") {
        Ok(Command::Find(name, pow)) => {
            assert_eq!(name, "notes.txt");
            assert_eq!(pow, Some(0));
        }
        other => panic!("unexpected {:?}", other),
    }
}

#[test]
fn find_takes_a_starting_hop_power() {
    match parse_command("find notes.txt 3") {
        Ok(Command::Find(name, pow)) => {
            assert_eq!(name, "notes.txt");
            assert_eq!(pow, Some(3));
        }
        other => panic!("unexpected {:?}", other),
    }
}

#[test]
fn find_trims_the_file_name() {
    match parse_command("find notes.txt\r") {
        Ok(Command::Find(name, _)) => assert_eq!(name, "notes.txt"),
        other => panic!("unexpected {:?}", other),
    }
}

#[test]
fn find_without_a_file_is_invalid() {
    assert_eq!(parse_command("find").unwrap_err(), CommandError::InvalidCommand);
}

#[test]
fn find_with_a_bad_hop_power_is_refused() {
    assert_eq!(
        parse_command("find notes.txt x").unwrap_err(),
        CommandError::InvalidNumber(NumberError::InvalidDigit)
    );
    assert_eq!(
        parse_command("find notes.txt ").unwrap_err(),
        CommandError::InvalidNumber(NumberError::Empty)
    );
    assert_eq!(
        parse_command("find notes.txt 4294967296").unwrap_err(),
        CommandError::InvalidNumber(NumberError::TooLarge)
    );
}

#[test]
fn download_reads_node_ids() {
    match parse_command("download 1 2 10") {
        Ok(Command::Download(ids)) => assert_eq!(ids, vec![1, 2, 10]),
        other => panic!("unexpected {:?}", other),
    }
    match parse_command("download +7") {
        Ok(Command::Download(ids)) => assert_eq!(ids, vec![7]),
        other => panic!("unexpected {:?}", other),
    }
}

#[test]
fn download_refuses_the_first_bad_id() {
    assert_eq!(
        parse_command("download 1 x 99999999999").unwrap_err(),
        CommandError::InvalidNumber(NumberError::InvalidDigit)
    );
    assert_eq!(
        parse_command("download 1  2").unwrap_err(),
        CommandError::InvalidNumber(NumberError::Empty)
    );
    assert_eq!(
        parse_command("download 99999999999 x").unwrap_err(),
        CommandError::InvalidNumber(NumberError::TooLarge)
    );
    assert_eq!(
        parse_command("download -1").unwrap_err(),
        CommandError::InvalidNumber(NumberError::InvalidDigit)
    );
    assert_eq!(
        parse_command("download +").unwrap_err(),
        CommandError::InvalidNumber(NumberError::InvalidDigit)
    );
}

#[test]
fn download_without_ids_is_invalid() {
    assert_eq!(parse_command("download").unwrap_err(), CommandError::InvalidCommand);
}

#[test]
fn unknown_words_are_invalid() {
    assert_eq!(parse_command("fetch x").unwrap_err(), CommandError::InvalidCommand);
    assert_eq!(parse_command("").unwrap_err(), CommandError::InvalidCommand);
}

#[test]
fn number_errors_read_as_std_writes_them() {
    for (text, e) in [("", NumberError::Empty), ("x", NumberError::InvalidDigit), ("99999999999", NumberError::TooLarge)] {
        let std_text = text.parse::<u32>().unwrap_err().to_string();
        assert_eq!(CommandError::InvalidNumber(e).message(), std_text);
    }
    assert_eq!(CommandError::InvalidCommand.message(), "Invalid command");
    assert_eq!(CommandError::NoCommand.message(), "No command given");
}

#[test]
fn ids_parse_as_std_parses_them() {
    for text in ["0", "+5", "4294967295", "4294967296", "1x", "-0", "", "+", "12a99999999999"] {
        let line = format!("download {}", text);
        let ours = parse_command(&line);
        match text.parse::<u32>() {
            Ok(v) => match ours {
                Ok(Command::Download(ids)) => assert_eq!(ids, vec![v]),
                other => panic!("{}: unexpected {:?}", text, other),
            },
            Err(e) => {
                let err = ours.unwrap_err();
                assert_eq!(err.message(), e.to_string(), "{}", text);
            }
        }
    }
}
