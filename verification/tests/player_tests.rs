use player::player::{
    key_for_symbol, parse_header, parse_song, song_fits, Command, Note, Player, NOTE_A4_IO,
    NOTE_B4_IO, NOTE_C4_IO, NOTE_D6_IO, NOTE_E4_IO, NOTE_E6_IO, NOTE_NO_IO,
};
use player::text::{chars_of, parse_u8, split_chars};

fn chars(s: &str) -> Vec<char> {
    s.chars().collect()
}

fn note(start_beat: u16, end_beat: u16, key: u8) -> Note {
    Note { start_beat, end_beat, key }
}

fn all_off() -> Vec<Command> {
    (0u8..17).map(Command::TurnOff).collect()
}

fn loaded(sheet: &str, time_per_beat: u32) -> (Player, Vec<Command>) {
    let mut out = Vec::new();
    let mut player = Player::new(&mut out).unwrap();
    assert!(song_fits(sheet));
    player.set_song(parse_song(sheet).unwrap(), time_per_beat);
    (player, out)
}

#[test]
fn chars_of_keeps_every_char() {
    assert_eq!(chars_of("a|b黑"), vec!['a', '|', 'b', '黑']);
    assert_eq!(chars_of(""), Vec::<char>::new());
}

#[test]
fn split_chars_matches_str_split() {
    for s in ["", "a", "a,b", ",", "a,,b,", "1,2|3"] {
        let expected: Vec<Vec<char>> = s.split(',').map(chars).collect();
        assert_eq!(split_chars(&chars(s), ','), expected);
    }
}

#[test]
fn parse_u8_follows_from_str() {
    for s in ["0", "7", "+7", "007", "255", "256", "", "+", "-1", "1a", " 1", "+-1", "99999"] {
        assert_eq!(parse_u8(&chars(s)), s.parse::<u8>().ok(), "input {:?}", s);
    }
}

#[test]
fn symbols_map_to_keys() {
    assert_eq!(key_for_symbol('D'), NOTE_D6_IO);
    assert_eq!(key_for_symbol('1'), NOTE_C4_IO);
    assert_eq!(key_for_symbol('6'), NOTE_A4_IO);
    assert_eq!(key_for_symbol('E'), NOTE_E6_IO);
    assert_eq!(key_for_symbol('-'), NOTE_NO_IO);
    assert_eq!(key_for_symbol('0'), NOTE_NO_IO);
    assert_eq!(key_for_symbol('x'), NOTE_NO_IO);
}

#[test]
fn header_gives_beats_and_tempo() {
    let h = parse_header("4,120_1").unwrap();
    assert_eq!(h.beat_per_group, 4);
    assert_eq!(h.tempo, chars("120"));
    let h = parse_header("3,90.5,extra").unwrap();
    assert_eq!(h.beat_per_group, 3);
    assert_eq!(h.tempo, chars("90.5"));
}

#[test]
fn header_errors() {
    assert!(parse_header("").is_none());
    assert!(parse_header("x,120_1").is_none());
    assert!(parse_header("300,120_1").is_none());
    assert!(parse_header("4_1,2").is_none());
}

#[test]
fn sheet_without_theme_is_refused() {
    assert!(song_fits("4,120"));
    assert!(parse_song("4,120").is_none());
    assert!(parse_song("x,120_1").is_none());
    // with a wrong header the notes are never read, so they may overflow
    assert!(!song_fits("x,120_10"));
    assert!(parse_song("x,120_10").is_none());
}

#[test]
fn notes_lie_end_to_end() {
    // one whole beat, then two half beats, then one whole beat
    let sheet = parse_song("4,120_1,24|34,5").unwrap();
    let mut out = Vec::new();
    let mut player = Player::new(&mut out).unwrap();
    player.set_song(sheet, 1000);
    let theme = player.get_theme().unwrap();
    assert_eq!(theme.total_beat(), 24);
    assert_eq!(
        theme.notes(),
        &vec![note(0, 7, 8), note(8, 11, 7), note(12, 15, 9), note(16, 23, 10)]
    );
}

#[test]
fn extra_characters_of_a_note_are_ignored() {
    let (player, _) = loaded("4,120_1234", 1);
    assert_eq!(player.get_theme().unwrap().notes(), &vec![note(0, 1, 8)]);
}

#[test]
fn unreadable_theme_leaves_no_theme() {
    let (player, _) = loaded("4,120_1,,2", 1);
    assert!(player.get_theme().is_none());
    let (player, _) = loaded("4,120_1x", 1);
    assert!(player.get_theme().is_none());
    let (player, _) = loaded("4,120_", 1);
    assert!(player.get_theme().is_none());
}

#[test]
fn overflowing_sheets_are_detected() {
    // a song that starts with a zero-length note
    assert!(!song_fits("4,120_10"));
    // 7282 notes of 9 eighth beats fit in 16 bits, one more does not
    let fits = vec!["19"; 7281].join(",");
    assert!(song_fits(&format!("4,120_{}", fits)));
    let over = vec!["19"; 7282].join(",");
    assert!(!song_fits(&format!("4,120_{}", over)));
    assert!(!song_fits(&format!("4,120_1_{}", over)));
    // an unreadable word stops reading before the overflow
    assert!(song_fits("4,120_1x,10"));
    assert!(song_fits("4,120_1,,10"));
}

#[test]
fn new_player_puts_out_every_led() {
    let mut out = vec![Command::DelayUs(5)];
    let mut player = Player::new(&mut out).unwrap();
    let mut expected = vec![Command::DelayUs(5)];
    expected.extend(all_off());
    assert_eq!(out, expected);
    assert!(!player.ended());
    assert!(player.get_theme().is_none());
    let mut out = Vec::new();
    assert_eq!(player.play(&mut out), None);
    assert!(player.ended());
    assert!(out.is_empty());
}

#[test]
fn player_lights_each_note_on_its_beat() {
    let (mut player, _) = loaded("4,120_14,74|3", 62500);
    let mut got = Vec::new();
    let mut cmds = Vec::new();
    for _ in 0..16 {
        let mut out = Vec::new();
        got.push(player.play(&mut out));
        cmds.push(out);
        assert!(!player.ended());
    }
    let mut out = Vec::new();
    assert_eq!(player.play(&mut out), None);
    assert!(player.ended());
    assert!(out.is_empty());

    assert_eq!(got[0], Some(note(0, 3, NOTE_C4_IO)));
    assert_eq!(got[4], Some(note(4, 7, NOTE_B4_IO)));
    assert_eq!(got[8], Some(note(8, 15, NOTE_E4_IO)));
    for b in [1, 2, 3, 5, 6, 7, 9, 15] {
        assert_eq!(got[b], None);
    }
    let delay = Command::DelayUs(62500);
    assert_eq!(cmds[0], vec![Command::TurnOn(NOTE_C4_IO), delay]);
    assert_eq!(cmds[1], vec![delay]);
    assert_eq!(
        cmds[4],
        vec![Command::TurnOff(NOTE_C4_IO), Command::TurnOn(NOTE_B4_IO), delay]
    );
    assert_eq!(
        cmds[8],
        vec![Command::TurnOff(NOTE_B4_IO), Command::TurnOn(NOTE_E4_IO), delay]
    );
    assert_eq!(cmds[15], vec![delay]);
}

#[test]
fn accompaniments_play_after_the_theme() {
    let (mut player, _) = loaded("2,60_1_3_1x_x_5", 7);
    let mut out = Vec::new();
    assert_eq!(player.play(&mut out), Some(note(0, 7, NOTE_C4_IO)));
    assert_eq!(
        out,
        vec![
            Command::TurnOn(NOTE_C4_IO),
            Command::TurnOn(NOTE_E4_IO),
            Command::TurnOn(NOTE_NO_IO),
            Command::TurnOn(10),
            Command::DelayUs(7),
        ]
    );
}

#[test]
fn accompaniments_add_up_across_sheets() {
    let mut out = Vec::new();
    let mut player = Player::new(&mut out).unwrap();
    player.set_song(parse_song("2,60_1_3").unwrap(), 7);
    player.set_song(parse_song("2,60_1_5").unwrap(), 7);
    let mut out = Vec::new();
    player.play(&mut out);
    assert_eq!(
        out,
        vec![
            Command::TurnOn(NOTE_C4_IO),
            Command::TurnOn(NOTE_E4_IO),
            Command::TurnOn(10),
            Command::DelayUs(7),
        ]
    );
}

#[test]
fn ended_player_stays_ended() {
    let (mut player, _) = loaded("4,120_12", 3);
    let mut out = Vec::new();
    player.play(&mut out);
    player.play(&mut out);
    assert_eq!(player.play(&mut out), None);
    assert!(player.ended());
    let before = out.len();
    assert_eq!(player.play(&mut out), None);
    assert_eq!(player.play(&mut out), None);
    assert!(player.ended());
    assert_eq!(out.len(), before);
}

#[test]
fn reset_replays_from_the_start() {
    let (mut player, _) = loaded("4,120_12,3", 3);
    let mut out = Vec::new();
    for _ in 0..11 {
        player.play(&mut out);
    }
    assert!(player.ended());
    let mut out = Vec::new();
    assert_eq!(player.reset(&mut out), Some(()));
    assert_eq!(out, all_off());
    assert!(!player.ended());
    let mut out = Vec::new();
    assert_eq!(player.play(&mut out), Some(note(0, 1, NOTE_C4_IO)));
    // a second reset changes nothing more
    let mut out = Vec::new();
    player.reset(&mut out);
    player.reset(&mut out);
    assert_eq!(player.play(&mut Vec::new()), Some(note(0, 1, NOTE_C4_IO)));
}

#[test]
fn zero_length_note_is_skipped() {
    // the second note lasts no time: its start beat is that of the third
    let (mut player, _) = loaded("4,120_12,30,52", 1);
    let notes = player.get_theme().unwrap().notes().clone();
    assert_eq!(notes, vec![note(0, 1, NOTE_C4_IO), note(2, 1, NOTE_E4_IO), note(2, 3, 10)]);
    let mut out = Vec::new();
    assert!(player.play(&mut out).is_some());
    assert!(player.play(&mut out).is_none());
    let mut out = Vec::new();
    assert_eq!(player.play(&mut out), Some(note(2, 1, NOTE_E4_IO)));
    assert_eq!(out, vec![Command::TurnOff(NOTE_C4_IO), Command::TurnOn(NOTE_E4_IO), Command::DelayUs(1)]);
}
