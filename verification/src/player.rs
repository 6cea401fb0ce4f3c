//! The song sheet and the player: a sheet is read into songs of notes, and
//! the player decides at every eighth beat which keys to light and unlight.
use vstd::prelude::*;
use crate::text::{
    chars_of, digit_of, digit_value, is_digit, lemma_split_on_len, parse_u8, parse_u8_spec,
    split_chars, split_on, views,
};

verus! {

broadcast use vstd::seq_lib::group_seq_properties;

pub const NOTE_D6: char = 'D';
pub const NOTE_B5: char = 'b';
pub const NOTE_G5: char = 'g';
pub const NOTE_E5: char = 'e';
pub const NOTE_C5: char = 'c';
pub const NOTE_A4: char = '6';
pub const NOTE_F4: char = '4';
pub const NOTE_D4: char = '2';
pub const NOTE_C4: char = '1';
pub const NOTE_E4: char = '3';
pub const NOTE_G4: char = '5';
pub const NOTE_B4: char = '7';
pub const NOTE_D5: char = 'd';
pub const NOTE_F5: char = 'f';
pub const NOTE_A5: char = 'a';
pub const NOTE_C6: char = 'C';
pub const NOTE_E6: char = 'E';

pub const NOTE_D6_IO: u8 = 0;
pub const NOTE_B5_IO: u8 = 1;
pub const NOTE_G5_IO: u8 = 2;
pub const NOTE_E5_IO: u8 = 3;
pub const NOTE_C5_IO: u8 = 4;
pub const NOTE_A4_IO: u8 = 5;
pub const NOTE_F4_IO: u8 = 6;
pub const NOTE_D4_IO: u8 = 7;
pub const NOTE_C4_IO: u8 = 8;
pub const NOTE_E4_IO: u8 = 9;
pub const NOTE_G4_IO: u8 = 10;
pub const NOTE_B4_IO: u8 = 11;
pub const NOTE_D5_IO: u8 = 12;
pub const NOTE_F5_IO: u8 = 13;
pub const NOTE_A5_IO: u8 = 14;
pub const NOTE_C6_IO: u8 = 15;
pub const NOTE_E6_IO: u8 = 16;
/// The key of rests, holds and unknown symbols: no LED is wired to it.
pub const NOTE_NO_IO: u8 = 255;

/// A note: its key lights from `start_beat` to `end_beat`, both counted in
/// eighths of a beat from the start of the song.
#[derive(Clone, Copy, Debug, PartialEq, Eq)]
pub struct Note {
    /// First eighth beat of the note.
    pub start_beat: u16,
    /// Last eighth beat of the note.
    pub end_beat: u16,
    /// The key (LED) it lights.
    pub key: u8,
}

/// The key that a symbol of the sheet stands for.
pub open spec fn key_of(c: char) -> u8 {
    if c == NOTE_D6 {
        NOTE_D6_IO
    } else if c == NOTE_B5 {
        NOTE_B5_IO
    } else if c == NOTE_G5 {
        NOTE_G5_IO
    } else if c == NOTE_E5 {
        NOTE_E5_IO
    } else if c == NOTE_C5 {
        NOTE_C5_IO
    } else if c == NOTE_A4 {
        NOTE_A4_IO
    } else if c == NOTE_F4 {
        NOTE_F4_IO
    } else if c == NOTE_D4 {
        NOTE_D4_IO
    } else if c == NOTE_C4 {
        NOTE_C4_IO
    } else if c == NOTE_E4 {
        NOTE_E4_IO
    } else if c == NOTE_G4 {
        NOTE_G4_IO
    } else if c == NOTE_B4 {
        NOTE_B4_IO
    } else if c == NOTE_D5 {
        NOTE_D5_IO
    } else if c == NOTE_F5 {
        NOTE_F5_IO
    } else if c == NOTE_A5 {
        NOTE_A5_IO
    } else if c == NOTE_C6 {
        NOTE_C6_IO
    } else if c == NOTE_E6 {
        NOTE_E6_IO
    } else {
        NOTE_NO_IO
    }
}

/// The key that a symbol of the sheet stands for; any other symbol (a hold
/// `-`, a rest `0`, ...) gives the unwired key.
pub fn key_for_symbol(c: char) -> (k: u8)
    ensures
        k == key_of(c),
{
    if c == NOTE_D6 {
        NOTE_D6_IO
    } else if c == NOTE_B5 {
        NOTE_B5_IO
    } else if c == NOTE_G5 {
        NOTE_G5_IO
    } else if c == NOTE_E5 {
        NOTE_E5_IO
    } else if c == NOTE_C5 {
        NOTE_C5_IO
    } else if c == NOTE_A4 {
        NOTE_A4_IO
    } else if c == NOTE_F4 {
        NOTE_F4_IO
    } else if c == NOTE_D4 {
        NOTE_D4_IO
    } else if c == NOTE_C4 {
        NOTE_C4_IO
    } else if c == NOTE_E4 {
        NOTE_E4_IO
    } else if c == NOTE_G4 {
        NOTE_G4_IO
    } else if c == NOTE_B4 {
        NOTE_B4_IO
    } else if c == NOTE_D5 {
        NOTE_D5_IO
    } else if c == NOTE_F5 {
        NOTE_F5_IO
    } else if c == NOTE_A5 {
        NOTE_A5_IO
    } else if c == NOTE_C6 {
        NOTE_C6_IO
    } else if c == NOTE_E6 {
        NOTE_E6_IO
    } else {
        NOTE_NO_IO
    }
}

/// The words of a song's notes: bars are separated by `|`, notes within a
/// bar by `,`.
pub open spec fn note_tokens(data: Seq<char>) -> Seq<Seq<char>> {
    split_on(data, '|').map_values(|bar: Seq<char>| split_on(bar, ',')).flatten()
}

/// How many eighth beats a note word lasts: its second character when that
/// is a digit, a whole beat (8) when it has none; `None` when the second
/// character is not a digit. Characters after the second are ignored.
pub open spec fn token_beats(t: Seq<char>) -> Option<int> {
    if t.len() < 2 {
        Some(8)
    } else if is_digit(t[1]) {
        Some(digit_value(t[1]))
    } else {
        None
    }
}

/// A note word can be read: it is not empty and its length part is valid.
pub open spec fn token_readable(t: Seq<char>) -> bool {
    t.len() > 0 && token_beats(t) is Some
}

/// The notes that the words stand for, laid end to end from beat 0, with the
/// number of eighth beats they cover; `None` when a word cannot be read.
pub open spec fn read_notes(tokens: Seq<Seq<char>>) -> Option<(Seq<Note>, int)>
    decreases tokens.len(),
{
    if tokens.len() == 0 {
        Some((Seq::<Note>::empty(), 0))
    } else {
        match read_notes(tokens.drop_last()) {
            None => None,
            Some((notes, total)) => {
                let t = tokens.last();
                if token_readable(t) {
                    let b = token_beats(t)->0;
                    Some(
                        (
                            notes.push(
                                Note {
                                    start_beat: total as u16,
                                    end_beat: (total + b - 1) as u16,
                                    key: key_of(t[0]),
                                },
                            ),
                            total + b,
                        ),
                    )
                } else {
                    None
                }
            },
        }
    }
}

/// Reading the words stays within 16-bit beat counts: every note that is
/// read ends at or after beat 0 and the running count never passes 65535.
pub open spec fn tokens_fit(tokens: Seq<Seq<char>>) -> bool
    decreases tokens.len(),
{
    tokens.len() == 0 || {
        &&& tokens_fit(tokens.drop_last())
        &&& match read_notes(tokens.drop_last()) {
            None => true,
            Some((_, total)) => token_readable(tokens.last()) ==> {
                let s = total + token_beats(tokens.last())->0;
                0 < s <= 65535
            },
        }
    }
}

/// The notes of a song's text fit 16-bit beat counts.
pub open spec fn notes_fit(data: Seq<char>) -> bool {
    tokens_fit(note_tokens(data))
}

/// A song as the player sees it.
pub struct SongView {
    /// The number of eighth beats the song lasts.
    pub total_beat: int,
    /// Its notes, in order.
    pub notes: Seq<Note>,
    /// The index of the note being played.
    pub cursor: int,
}

/// The song that a text stands for, rewound; `None` when a word cannot be
/// read.
pub open spec fn song_of(data: Seq<char>) -> Option<SongView> {
    match read_notes(note_tokens(data)) {
        None => None,
        Some((notes, total)) => Some(SongView { total_beat: total, notes, cursor: 0 }),
    }
}

/// A song: its notes and the note being played.
#[derive(Debug)]
pub struct Song {
    total_beat: u16,
    notes: Vec<Note>,
    cursor: usize,
}

impl View for Song {
    type V = SongView;

    closed spec fn view(&self) -> SongView {
        SongView {
            total_beat: self.total_beat as int,
            notes: self.notes@,
            cursor: self.cursor as int,
        }
    }
}

/// The view of a song that may be missing.
pub open spec fn opt_song_view(s: Option<Song>) -> Option<SongView> {
    match s {
        Some(s) => Some(s@),
        None => None,
    }
}

/// The outcome of reading note words.
enum Scan {
    Notes(Vec<Note>, u16),
    Unreadable,
    Overflow,
}

proof fn lemma_prefix_fits(s: Seq<Seq<char>>, m: int)
    requires
        0 <= m <= s.len(),
        tokens_fit(s),
    ensures
        tokens_fit(s.take(m)),
    decreases s.len() - m,
{
    if m < s.len() {
        assert(s.drop_last().take(m) =~= s.take(m));
        lemma_prefix_fits(s.drop_last(), m);
    } else {
        assert(s.take(m) =~= s);
    }
}

proof fn lemma_unreadable_prefix(s: Seq<Seq<char>>, m: int)
    requires
        0 <= m <= s.len(),
        tokens_fit(s.take(m)),
        read_notes(s.take(m)) is None,
    ensures
        tokens_fit(s),
        read_notes(s) is None,
    decreases s.len() - m,
{
    if m < s.len() {
        assert(s.drop_last().take(m) =~= s.take(m));
        lemma_unreadable_prefix(s.drop_last(), m);
    } else {
        assert(s.take(m) =~= s);
    }
}

/// All the note words of a song's text, in order.
fn tokens_of(data: &Vec<char>) -> (tokens: Vec<Vec<char>>)
    ensures
        views(tokens@) == note_tokens(data@),
{
    let bars = split_chars(data, '|');
    let ghost words_of = split_on(data@, '|').map_values(|bar: Seq<char>| split_on(bar, ','));
    let mut tokens: Vec<Vec<char>> = Vec::new();
    let mut i: usize = 0;
    assert(words_of.take(0) =~= Seq::<Seq<Seq<char>>>::empty());
    while i < bars.len()
        invariant
            0 <= i <= bars.len(),
            views(bars@) == split_on(data@, '|'),
            words_of == split_on(data@, '|').map_values(|bar: Seq<char>| split_on(bar, ',')),
            views(tokens@) =~= words_of.take(i as int).flatten(),
        decreases bars.len() - i,
    {
        let mut words = split_chars(&bars[i], ',');
        assert(bars@[i as int]@ == views(bars@)[i as int]);
        assert(words_of[i as int] == views(words@));
        let ghost before = views(tokens@);
        let ghost added = views(words@);
        tokens.append(&mut words);
        assert(views(tokens@) =~= before + added);
        assert(words_of.take(i + 1) =~= words_of.take(i as int).push(words_of[i as int]));
        proof {
            words_of.take(i as int).lemma_flatten_push(words_of[i as int]);
        }
        i = i + 1;
    }
    assert(words_of.take(bars@.len() as int) =~= words_of);
    tokens
}

/// Reads note words one after the other, stopping at the first that cannot
/// be read or that would take the beat count past 16 bits.
fn scan_tokens(tokens: &Vec<Vec<char>>) -> (r: Scan)
    ensures
        r is Overflow <==> !tokens_fit(views(tokens@)),
        tokens_fit(views(tokens@)) ==> match r {
            Scan::Notes(notes, total) => read_notes(views(tokens@)) == Some(
                (notes@, total as int),
            ),
            _ => read_notes(views(tokens@)) is None,
        },
{
    let ghost toks = views(tokens@);
    let mut notes: Vec<Note> = Vec::new();
    let mut total: u16 = 0;
    let mut k: usize = 0;
    assert(toks.take(0) =~= Seq::<Seq<char>>::empty());
    while k < tokens.len()
        invariant
            0 <= k <= tokens.len(),
            toks == views(tokens@),
            tokens_fit(toks.take(k as int)),
            read_notes(toks.take(k as int)) == Some((notes@, total as int)),
        decreases tokens.len() - k,
    {
        let t = &tokens[k];
        let ghost pre = toks.take(k as int);
        let ghost next = toks.take(k + 1);
        assert(next.drop_last() =~= pre);
        assert(next.last() == t@);
        if t.len() == 0 {
            proof {
                lemma_unreadable_prefix(toks, k + 1);
            }
            return Scan::Unreadable;
        }
        let key = key_for_symbol(t[0]);
        let mut beats: u16 = 8;
        if t.len() >= 2 {
            match digit_of(t[1]) {
                Some(d) => {
                    beats = d;
                },
                None => {
                    proof {
                        lemma_unreadable_prefix(toks, k + 1);
                    }
                    return Scan::Unreadable;
                },
            }
        }
        let sum: u32 = total as u32 + beats as u32;
        if sum == 0 || sum > 65535 {
            proof {
                if tokens_fit(toks) {
                    lemma_prefix_fits(toks, k + 1);
                }
            }
            return Scan::Overflow;
        }
        notes.push(Note { start_beat: total, end_beat: (sum - 1) as u16, key });
        total = sum as u16;
        k = k + 1;
    }
    assert(toks.take(tokens.len() as int) =~= toks);
    Scan::Notes(notes, total)
}

/// Reads the notes of one song.
fn split_notes(data: &Vec<char>) -> (song: Option<Song>)
    requires
        notes_fit(data@),
    ensures
        opt_song_view(song) == song_of(data@),
{
    let tokens = tokens_of(data);
    match scan_tokens(&tokens) {
        Scan::Notes(notes, total) => Some(Song { notes, cursor: 0, total_beat: total }),
        _ => None,
    }
}


/// The sections of a sheet: a header, the theme, then the accompaniments,
/// separated by `_`.
pub open spec fn sheet_sections(s: Seq<char>) -> Seq<Seq<char>> {
    split_on(s, '_')
}

/// The header of a sheet, `beats-per-bar,tempo[,...]`: the beats per bar
/// (a `u8`) and the text of the tempo; `None` when the first field is not a
/// `u8` or there is no second field.
pub open spec fn header_of(s: Seq<char>) -> Option<(u8, Seq<char>)> {
    header_fields(sheet_sections(s)[0])
}

/// The beats per bar and the tempo text of a header section.
pub open spec fn header_fields(section: Seq<char>) -> Option<(u8, Seq<char>)> {
    let info = split_on(section, ',');
    match parse_u8_spec(info[0]) {
        None => None,
        Some(b) => if info.len() >= 2 {
            Some((b, info[1]))
        } else {
            None
        },
    }
}

/// Every song of a sheet (theme and accompaniments) fits 16-bit beat counts.
pub open spec fn sheet_fits(s: Seq<char>) -> bool {
    forall|i: int|
        1 <= i < sheet_sections(s).len() ==> #[trigger] notes_fit(sheet_sections(s)[i])
}

/// A sheet as the player sees it.
pub struct SheetView {
    pub beat_per_group: u8,
    pub tempo: Seq<char>,
    pub theme: Option<SongView>,
    pub accompanies: Seq<Option<SongView>>,
}

/// The views of songs that may be missing.
pub open spec fn opt_songs_view(v: Seq<Option<Song>>) -> Seq<Option<SongView>> {
    v.map_values(|o: Option<Song>| opt_song_view(o))
}

/// What a sheet stands for: its header, the theme read from the second
/// section and one accompaniment per further section (`None` for a section
/// that cannot be read); `None` when the header is wrong or there is no
/// theme section.
pub open spec fn sheet_of(s: Seq<char>) -> Option<SheetView> {
    let sections = sheet_sections(s);
    match header_of(s) {
        None => None,
        Some((b, tempo)) => if sections.len() >= 2 {
            Some(
                SheetView {
                    beat_per_group: b,
                    tempo,
                    theme: song_of(sections[1]),
                    accompanies: sections.skip(2).map_values(|d: Seq<char>| song_of(d)),
                },
            )
        } else {
            None
        },
    }
}

/// The header of a song sheet.
pub struct SongHeader {
    /// Beats per bar.
    pub beat_per_group: u8,
    /// The text of the tempo, in beats per minute.
    pub tempo: Vec<char>,
}

/// A song sheet read into songs.
pub struct SongSheet {
    beat_per_group: u8,
    tempo: Vec<char>,
    theme: Option<Song>,
    accompanies: Vec<Option<Song>>,
}

impl View for SongSheet {
    type V = SheetView;

    closed spec fn view(&self) -> SheetView {
        SheetView {
            beat_per_group: self.beat_per_group,
            tempo: self.tempo@,
            theme: opt_song_view(self.theme),
            accompanies: opt_songs_view(self.accompanies@),
        }
    }
}

/// The view of a sheet that may be missing.
pub open spec fn opt_sheet_view(s: Option<SongSheet>) -> Option<SheetView> {
    match s {
        Some(s) => Some(s@),
        None => None,
    }
}

fn header_of_sections(sections: &Vec<Vec<char>>) -> (h: Option<SongHeader>)
    requires
        sections@.len() >= 1,
    ensures
        match h {
            Some(h) => header_fields(sections@[0]@) == Some((h.beat_per_group, h.tempo@)),
            None => header_fields(sections@[0]@) is None,
        },
{
    let mut info = split_chars(&sections[0], ',');
    proof {
        lemma_split_on_len(sections@[0]@, ',');
    }
    assert(views(info@)[0] == info@[0]@);
    let beat_per_group = match parse_u8(&info[0]) {
        Some(b) => b,
        None => {
            return None;
        },
    };
    if info.len() < 2 {
        return None;
    }
    assert(views(info@)[1] == info@[1]@);
    let tempo = info.remove(1);
    Some(SongHeader { beat_per_group, tempo })
}

/// Reads the header of a song sheet: `None` when its first field is not a
/// `u8` or it has no second (tempo) field.
pub fn parse_header(songs: &str) -> (h: Option<SongHeader>)
    ensures
        match h {
            Some(h) => header_of(songs@) == Some((h.beat_per_group, h.tempo@)),
            None => header_of(songs@) is None,
        },
{
    let text = chars_of(songs);
    let sections = split_chars(&text, '_');
    proof {
        lemma_split_on_len(text@, '_');
    }
    assert(views(sections@)[0] == sections@[0]@);
    header_of_sections(&sections)
}

/// Tells whether every song of a sheet fits 16-bit beat counts; reading a
/// sheet for which this is false overflows a beat count.
pub fn song_fits(songs: &str) -> (ok: bool)
    ensures
        ok == sheet_fits(songs@),
{
    let text = chars_of(songs);
    let sections = split_chars(&text, '_');
    let mut i: usize = 1;
    while i < sections.len()
        invariant
            1 <= i,
            views(sections@) == sheet_sections(songs@),
            forall|j: int| 1 <= j < i && j < sections@.len() ==> #[trigger] notes_fit(
                sheet_sections(songs@)[j],
            ),
        decreases sections.len() - i,
    {
        assert(views(sections@)[i as int] == sections@[i as int]@);
        let tokens = tokens_of(&sections[i]);
        match scan_tokens(&tokens) {
            Scan::Overflow => {
                assert(!notes_fit(sheet_sections(songs@)[i as int]));
                return false;
            },
            _ => {},
        }
        i = i + 1;
    }
    true
}

/// Reads a song sheet `beats-per-bar,tempo_theme_accompaniment_...`: the
/// theme and each accompaniment are bars separated by `|`, each bar notes
/// separated by `,`, each note a key symbol and an optional length digit in
/// eighth beats. `None` when the header is wrong or there is no theme
/// section; a song whose text cannot be read becomes `None` in the sheet.
/// A sheet with a good header and a theme section must fit 16-bit beat
/// counts (see `song_fits`).
pub fn parse_song(songs: &str) -> (sheet: Option<SongSheet>)
    requires
        header_of(songs@) is Some && sheet_sections(songs@).len() >= 2 ==> sheet_fits(songs@),
    ensures
        opt_sheet_view(sheet) == sheet_of(songs@),
{
    let text = chars_of(songs);
    let sections = split_chars(&text, '_');
    proof {
        lemma_split_on_len(text@, '_');
    }
    assert(views(sections@)[0] == sections@[0]@);
    let header = match header_of_sections(&sections) {
        Some(h) => h,
        None => {
            return None;
        },
    };
    if sections.len() < 2 {
        return None;
    }
    assert(views(sections@)[1] == sections@[1]@);
    assert(notes_fit(sheet_sections(songs@)[1]));
    let theme = split_notes(&sections[1]);
    let mut accompanies: Vec<Option<Song>> = Vec::new();
    let mut i: usize = 2;
    let ghost rest = sheet_sections(songs@).skip(2).map_values(|d: Seq<char>| song_of(d));
    assert(header_of(songs@) is Some);
    while i < sections.len()
        invariant
            2 <= i <= sections.len(),
            views(sections@) == sheet_sections(songs@),
            sheet_fits(songs@),
            rest == sheet_sections(songs@).skip(2).map_values(|d: Seq<char>| song_of(d)),
            opt_songs_view(accompanies@) =~= rest.take(i - 2),
        decreases sections.len() - i,
    {
        assert(views(sections@)[i as int] == sections@[i as int]@);
        assert(notes_fit(sheet_sections(songs@)[i as int]));
        let song = split_notes(&sections[i]);
        accompanies.push(song);
        assert(rest[i - 2] == song_of(sections@[i as int]@));
        assert(rest.take(i - 1) =~= rest.take(i - 2).push(rest[i - 2]));
        i = i + 1;
    }
    assert(rest.take(sections@.len() - 2) =~= rest);
    Some(
        SongSheet {
            beat_per_group: header.beat_per_group,
            tempo: header.tempo,
            theme,
            accompanies,
        },
    )
}


/// What the player asks of the hardware, in order.
#[derive(Clone, Copy, Debug, PartialEq, Eq)]
pub enum Command {
    /// Light the LED of a key (the unwired key does nothing).
    TurnOn(u8),
    /// Put out the LED of a key (the unwired key does nothing).
    TurnOff(u8),
    /// Wait this many microseconds.
    DelayUs(u32),
}

/// A song rewound to its first note.
pub open spec fn rewind(s: SongView) -> SongView {
    SongView { cursor: 0, ..s }
}

/// A song that may be missing, rewound.
pub open spec fn rewind_opt(s: Option<SongView>) -> Option<SongView> {
    match s {
        Some(s) => Some(rewind(s)),
        None => None,
    }
}

/// One eighth beat of a song at beat `beat`: when the beat is past the
/// current note, that note's key is put out and the song moves to the next
/// note; then, when the beat is the start of the current note, its key is
/// lit and the note is returned. Gives the new song, the commands and the
/// note that starts.
pub open spec fn note_step(beat: int, s: SongView) -> (SongView, Seq<Command>, Option<Note>) {
    if !(0 <= s.cursor < s.notes.len()) {
        (s, Seq::<Command>::empty(), None)
    } else {
        let n = s.notes[s.cursor];
        if beat > n.end_beat {
            let s1 = SongView { cursor: s.cursor + 1, ..s };
            if s1.cursor < s.notes.len() {
                let m = s.notes[s1.cursor];
                if beat == m.start_beat {
                    (s1, seq![Command::TurnOff(n.key), Command::TurnOn(m.key)], Some(m))
                } else {
                    (s1, seq![Command::TurnOff(n.key)], None)
                }
            } else {
                (s1, seq![Command::TurnOff(n.key)], None)
            }
        } else if beat == n.start_beat {
            (s, seq![Command::TurnOn(n.key)], Some(n))
        } else {
            (s, Seq::<Command>::empty(), None)
        }
    }
}

/// One eighth beat of each accompaniment, in order (missing ones are
/// skipped): the new accompaniments and the commands, one after the other.
pub open spec fn accompany_step(beat: int, accs: Seq<Option<SongView>>) -> (
    Seq<Option<SongView>>,
    Seq<Command>,
)
    decreases accs.len(),
{
    if accs.len() == 0 {
        (Seq::<Option<SongView>>::empty(), Seq::<Command>::empty())
    } else {
        let (front, cmds) = accompany_step(beat, accs.drop_last());
        match accs.last() {
            None => (front.push(None), cmds),
            Some(s) => {
                let r = note_step(beat, s);
                (front.push(Some(r.0)), cmds + r.1)
            },
        }
    }
}

proof fn lemma_accompany_len(beat: int, accs: Seq<Option<SongView>>)
    ensures
        accompany_step(beat, accs).0.len() == accs.len(),
    decreases accs.len(),
{
    if accs.len() > 0 {
        lemma_accompany_len(beat, accs.drop_last());
    }
}

/// The player as its contracts see it.
pub struct PlayerView {
    /// The eighth beat to play next.
    pub current_beat: int,
    /// Beats per bar.
    pub beat_per_group: u8,
    /// Microseconds per eighth beat.
    pub time_per_beat: u32,
    /// Whether playback has ended.
    pub ended: bool,
    /// The theme.
    pub theme: Option<SongView>,
    /// The accompaniments.
    pub accompanies: Seq<Option<SongView>>,
}

/// One call of `play`: an ended player, or one without a theme, ends and
/// does nothing; one whose theme is over ends; otherwise the theme and then
/// each accompaniment play the current eighth beat, the player waits one
/// eighth beat and moves to the next. Gives the new player, the commands and
/// the theme's note that starts.
pub open spec fn play_step(p: PlayerView) -> (PlayerView, Seq<Command>, Option<Note>) {
    match p.theme {
        None => (PlayerView { ended: true, ..p }, Seq::<Command>::empty(), None),
        Some(t) => if p.ended || p.current_beat == t.total_beat {
            (PlayerView { ended: true, ..p }, Seq::<Command>::empty(), None)
        } else {
            let (t1, c1, note) = note_step(p.current_beat, t);
            let (a1, c2) = accompany_step(p.current_beat, p.accompanies);
            (
                PlayerView {
                    current_beat: p.current_beat + 1,
                    theme: Some(t1),
                    accompanies: a1,
                    ..p
                },
                c1 + c2 + seq![Command::DelayUs(p.time_per_beat)],
                note,
            )
        },
    }
}

/// The commands that put out every wired key, from key 0 to key 16.
pub open spec fn all_off() -> Seq<Command> {
    Seq::new(17, |k: int| Command::TurnOff(k as u8))
}

/// The player rewound: back to beat 0, every song at its first note, not
/// ended.
pub open spec fn reset_state(p: PlayerView) -> PlayerView {
    PlayerView {
        current_beat: 0,
        ended: false,
        theme: rewind_opt(p.theme),
        accompanies: p.accompanies.map_values(|a: Option<SongView>| rewind_opt(a)),
        ..p
    }
}

/// The player after a sheet is loaded at a given speed: at beat 0, not
/// ended, with the sheet's theme; the sheet's accompaniments are added after
/// those already there.
pub open spec fn load_state(p: PlayerView, sheet: SheetView, time_per_beat: u32) -> PlayerView {
    PlayerView {
        current_beat: 0,
        beat_per_group: sheet.beat_per_group,
        time_per_beat,
        ended: false,
        theme: sheet.theme,
        accompanies: p.accompanies + sheet.accompanies,
    }
}

/// A player before any sheet is loaded.
pub open spec fn empty_player() -> PlayerView {
    PlayerView {
        current_beat: 0,
        beat_per_group: 0,
        time_per_beat: 0,
        ended: false,
        theme: None,
        accompanies: Seq::<Option<SongView>>::empty(),
    }
}

/// Plays one eighth beat of a song at beat `current_beat`, appending the
/// LED commands to `out`; returns the note that starts.
fn play_note(current_beat: u16, song: &mut Song, out: &mut Vec<Command>) -> (note: Option<Note>)
    ensures
        ({
            let r = note_step(current_beat as int, old(song)@);
            &&& final(song)@ == r.0
            &&& final(out)@ == old(out)@ + r.1
            &&& note == r.2
        }),
{
    if song.cursor >= song.notes.len() {
        assert(out@ =~= old(out)@ + Seq::<Command>::empty());
        return None;
    }
    let mut current_note = song.notes[song.cursor];
    if current_beat > current_note.end_beat {
        out.push(Command::TurnOff(current_note.key));
        song.cursor = song.cursor + 1;
        if song.cursor >= song.notes.len() {
            assert(out@ =~= old(out)@ + seq![Command::TurnOff(current_note.key)]);
            return None;
        }
        let ghost off = current_note.key;
        current_note = song.notes[song.cursor];
        if current_beat == current_note.start_beat {
            out.push(Command::TurnOn(current_note.key));
            assert(out@ =~= old(out)@ + seq![
                Command::TurnOff(off),
                Command::TurnOn(current_note.key),
            ]);
            return Some(current_note);
        }
        assert(out@ =~= old(out)@ + seq![Command::TurnOff(off)]);
        return None;
    }
    if current_beat == current_note.start_beat {
        out.push(Command::TurnOn(current_note.key));
        assert(out@ =~= old(out)@ + seq![Command::TurnOn(current_note.key)]);
        return Some(current_note);
    }
    assert(out@ =~= old(out)@ + Seq::<Command>::empty());
    None
}

/// The note player: the songs loaded, where playback stands and its speed.
pub struct Player {
    current_beat: u16,
    beat_per_group: u8,
    time_per_beat: u32,
    ended: bool,
    theme: Option<Song>,
    accompanies: Vec<Option<Song>>,
}

impl View for Player {
    type V = PlayerView;

    closed spec fn view(&self) -> PlayerView {
        PlayerView {
            current_beat: self.current_beat as int,
            beat_per_group: self.beat_per_group,
            time_per_beat: self.time_per_beat,
            ended: self.ended,
            theme: opt_song_view(self.theme),
            accompanies: opt_songs_view(self.accompanies@),
        }
    }
}

impl Player {
    /// The beat counter never passes the end of the theme.
    #[verifier::type_invariant]
    closed spec fn beat_within_theme(self) -> bool {
        match self.theme {
            Some(t) => self.current_beat <= t.total_beat,
            None => true,
        }
    }

    /// A player with nothing loaded, with every LED put out (the commands
    /// are appended to `out`).
    pub fn new(out: &mut Vec<Command>) -> (player: Option<Player>)
        ensures
            player is Some,
            player->0@ == reset_state(empty_player()),
            final(out)@ == old(out)@ + all_off(),
            final(out)@.len() == old(out)@.len() + 17,
            forall|k: int| 0 <= k < 17 ==> #[trigger] final(out)@[old(out)@.len() + k]
                == Command::TurnOff(k as u8),
            player->0@.current_beat == 0,
            !player->0@.ended,
            player->0@.theme is None,
            player->0@.accompanies.len() == 0,
    {
        let mut player = Player {
            current_beat: 0,
            beat_per_group: 0,
            time_per_beat: 0,
            ended: false,
            theme: None,
            accompanies: Vec::new(),
        };
        player.reset(out);
        Some(player)
    }

    /// Loads a sheet to play at `time_per_beat` microseconds per eighth
    /// beat, from beat 0; its accompaniments are added after those already
    /// loaded.
    pub fn set_song(&mut self, sheet: SongSheet, time_per_beat: u32)
        ensures
            final(self)@ == load_state(old(self)@, sheet@, time_per_beat),
            final(self)@.current_beat == 0,
            !final(self)@.ended,
            final(self)@.time_per_beat == time_per_beat,
            final(self)@.beat_per_group == sheet@.beat_per_group,
            final(self)@.theme == sheet@.theme,
            final(self)@.accompanies == old(self)@.accompanies + sheet@.accompanies,
    {
        let SongSheet { beat_per_group, tempo: _, theme, mut accompanies } = sheet;
        self.current_beat = 0;
        self.theme = theme;
        let mut all: Vec<Option<Song>> = Vec::new();
        std::mem::swap(&mut all, &mut self.accompanies);
        all.append(&mut accompanies);
        self.accompanies = all;
        self.beat_per_group = beat_per_group;
        self.time_per_beat = time_per_beat;
        self.ended = false;
        assert(self@.accompanies =~= old(self)@.accompanies + sheet@.accompanies);
    }

    /// Plays the next eighth beat of the theme and the accompaniments,
    /// appending the LED commands and the wait to `out`; returns the theme's
    /// note that starts on this beat. Meant to be called once per eighth
    /// beat.
    pub fn play(&mut self, out: &mut Vec<Command>) -> (note: Option<Note>)
        ensures
            ({
                let r = play_step(old(self)@);
                &&& final(self)@ == r.0
                &&& final(out)@ == old(out)@ + r.1
                &&& note == r.2
            }),
    {
        proof {
            use_type_invariant(&*self);
        }
        if self.ended || self.theme.is_none() {
            self.ended = true;
            assert(out@ =~= old(out)@ + Seq::<Command>::empty());
            return None;
        }
        let mut slot: Option<Song> = None;
        std::mem::swap(&mut slot, &mut self.theme);
        let mut theme = match slot {
            Some(t) => t,
            None => {
                return None;
            },
        };
        if self.current_beat == theme.total_beat {
            self.theme = Some(theme);
            self.ended = true;
            assert(out@ =~= old(out)@ + Seq::<Command>::empty());
            return None;
        }
        let beat = self.current_beat;
        let theme_note = play_note(beat, &mut theme, out);
        self.theme = Some(theme);
        let ghost after_theme = out@;

        let mut accs: Vec<Option<Song>> = Vec::new();
        std::mem::swap(&mut accs, &mut self.accompanies);
        let ghost orig = opt_songs_view(accs@);
        let mut i: usize = 0;
        assert(orig.take(0) =~= Seq::<Option<SongView>>::empty());
        while i < accs.len()
            invariant
                0 <= i <= accs.len(),
                accs@.len() == orig.len(),
                opt_songs_view(accs@) =~= accompany_step(beat as int, orig.take(i as int)).0
                    + orig.skip(i as int),
                out@ == after_theme + accompany_step(beat as int, orig.take(i as int)).1,
            decreases accs.len() - i,
        {
            let ghost pre = orig.take(i as int);
            let ghost cur = orig[i as int];
            let ghost done = accompany_step(beat as int, pre);
            let ghost old_accs = accs@;
            assert(orig.take(i + 1).drop_last() =~= pre);
            assert(orig.take(i + 1).last() == cur);
            proof {
                lemma_accompany_len(beat as int, pre);
            }
            assert(opt_songs_view(accs@)[i as int] == (done.0 + orig.skip(i as int))[i as int]);
            assert(opt_song_view(accs@[i as int]) == cur);
            let mut slot: Option<Song> = None;
            std::mem::swap(&mut slot, &mut accs[i]);
            match slot {
                Some(mut s) => {
                    let ghost r = note_step(beat as int, s@);
                    play_note(beat, &mut s, out);
                    let mut back = Some(s);
                    std::mem::swap(&mut back, &mut accs[i]);
                    assert(accompany_step(beat as int, orig.take(i + 1)) == (
                        done.0.push(Some(r.0)),
                        done.1 + r.1,
                    ));
                    assert(out@ =~= after_theme + accompany_step(
                        beat as int,
                        orig.take(i + 1),
                    ).1);
                    assert(accs@ =~= old_accs.update(i as int, Some(s)));
                    assert(opt_songs_view(accs@) =~= opt_songs_view(old_accs).update(
                        i as int,
                        Some(r.0),
                    ));
                    assert(done.0.push(Some(r.0)) + orig.skip(i + 1) =~= (done.0 + orig.skip(
                        i as int,
                    )).update(i as int, Some(r.0)));
                },
                None => {
                    let mut back: Option<Song> = None;
                    std::mem::swap(&mut back, &mut accs[i]);
                    assert(accs@ =~= old_accs);
                    assert(done.0.push(None) + orig.skip(i + 1) =~= done.0 + orig.skip(
                        i as int,
                    ));
                    assert(accompany_step(beat as int, orig.take(i + 1)) == (
                        done.0.push(None),
                        done.1,
                    ));
                },
            }
            assert(opt_songs_view(accs@) =~= accompany_step(beat as int, orig.take(i + 1)).0
                + orig.skip(i + 1));
            i = i + 1;
        }
        assert(orig.take(accs@.len() as int) =~= orig);
        std::mem::swap(&mut accs, &mut self.accompanies);

        out.push(Command::DelayUs(self.time_per_beat));
        self.current_beat = self.current_beat + 1;
        theme_note
    }

    /// Whether playback has ended.
    pub fn ended(&self) -> (r: bool)
        ensures
            r == self@.ended,
    {
        self.ended
    }

    /// The theme, if one is loaded.
    pub fn get_theme(&self) -> (theme: Option<&Song>)
        ensures
            match theme {
                Some(t) => self@.theme == Some(t@),
                None => self@.theme is None,
            },
    {
        match &self.theme {
            Some(t) => Some(t),
            None => None,
        }
    }

    /// Rewinds the player to beat 0 and every song to its first note, and
    /// puts out every LED (the commands are appended to `out`).
    pub fn reset(&mut self, out: &mut Vec<Command>) -> (r: Option<()>)
        ensures
            r == Some(()),
            final(self)@ == reset_state(old(self)@),
            final(out)@ == old(out)@ + all_off(),
            final(self)@.current_beat == 0,
            !final(self)@.ended,
            final(self)@.time_per_beat == old(self)@.time_per_beat,
            final(self)@.beat_per_group == old(self)@.beat_per_group,
            old(self)@.theme is None ==> final(self)@.theme is None,
            old(self)@.theme is Some ==> final(self)@.theme == Some(
                SongView { cursor: 0, ..old(self)@.theme->0 },
            ),
            final(self)@.accompanies.len() == old(self)@.accompanies.len(),
            forall|i: int|
                0 <= i < old(self)@.accompanies.len() ==> {
                    &&& (old(self)@.accompanies[i] is None
                        ==> #[trigger] final(self)@.accompanies[i] is None)
                    &&& (old(self)@.accompanies[i] is Some ==> final(self)@.accompanies[i]
                        == Some(SongView { cursor: 0, ..old(self)@.accompanies[i]->0 }))
                },
            forall|k: int| 0 <= k < 17 ==> #[trigger] final(out)@[old(out)@.len() + k]
                == Command::TurnOff(k as u8),
            final(out)@.len() == old(out)@.len() + 17,
    {
        self.current_beat = 0;
        let mut slot: Option<Song> = None;
        std::mem::swap(&mut slot, &mut self.theme);
        match slot {
            Some(mut t) => {
                t.cursor = 0;
                self.theme = Some(t);
            },
            None => {},
        }
        self.ended = false;

        let mut accs: Vec<Option<Song>> = Vec::new();
        std::mem::swap(&mut accs, &mut self.accompanies);
        let ghost orig = opt_songs_view(accs@);
        let mut i: usize = 0;
        while i < accs.len()
            invariant
                0 <= i <= accs.len(),
                accs@.len() == orig.len(),
                forall|j: int|
                    0 <= j < orig.len() ==> #[trigger] opt_songs_view(accs@)[j] == if j < i {
                        rewind_opt(orig[j])
                    } else {
                        orig[j]
                    },
            decreases accs.len() - i,
        {
            let ghost old_accs = accs@;
            assert(opt_songs_view(old_accs)[i as int] == orig[i as int]);
            let mut slot: Option<Song> = None;
            std::mem::swap(&mut slot, &mut accs[i]);
            match slot {
                Some(mut s) => {
                    s.cursor = 0;
                    let mut back = Some(s);
                    std::mem::swap(&mut back, &mut accs[i]);
                    assert(accs@ =~= old_accs.update(i as int, Some(s)));
                },
                None => {
                    let mut back: Option<Song> = None;
                    std::mem::swap(&mut back, &mut accs[i]);
                    assert(accs@ =~= old_accs);
                },
            }
            assert(opt_songs_view(accs@) =~= opt_songs_view(old_accs).update(
                i as int,
                rewind_opt(orig[i as int]),
            ));
            i = i + 1;
        }
        assert(opt_songs_view(accs@) =~= orig.map_values(|a: Option<SongView>| rewind_opt(a)));
        std::mem::swap(&mut accs, &mut self.accompanies);

        let mut key: u8 = 0;
        let ghost start = out@;
        while key < 17
            invariant
                key <= 17,
                out@ =~= start + all_off().take(key as int),
            decreases 17 - key,
        {
            out.push(Command::TurnOff(key));
            assert(all_off().take(key + 1) =~= all_off().take(key as int).push(
                Command::TurnOff(key),
            ));
            key = key + 1;
        }
        assert(all_off().take(17) =~= all_off());
        Some(())
    }
}

impl Song {
    /// The number of eighth beats the song lasts.
    pub fn total_beat(&self) -> (r: u16)
        ensures
            r == self@.total_beat,
    {
        self.total_beat
    }

    /// The notes of the song, in order.
    pub fn notes(&self) -> (r: &Vec<Note>)
        ensures
            r@ == self@.notes,
    {
        &self.notes
    }
}

} // verus!
