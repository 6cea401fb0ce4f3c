//! What holds of every sheet and every run of the player.
use vstd::prelude::*;
use crate::text::{join_with, law_join_split, parse_u8_spec, split_on};
use crate::player::{
    accompany_step, key_of, load_state, note_step, note_tokens, notes_fit, play_step,
    read_notes, reset_state, sheet_of, sheet_sections, song_of, token_beats, token_readable,
    tokens_fit, Command, Note, PlayerView, SheetView, SongView,
};

verus! {

broadcast use vstd::seq_lib::group_seq_properties;

/// The notes of a song lie end to end from beat 0: the first starts at 0,
/// each starts right after the one before ends, and the song lasts until the
/// last note ends.
pub open spec fn notes_tile(notes: Seq<Note>, total: int) -> bool {
    &&& notes.len() > 0 ==> notes[0].start_beat == 0
    &&& forall|i: int|
        0 <= i < notes.len() - 1 ==> #[trigger] notes[i + 1].start_beat == notes[i].end_beat + 1
    &&& total == if notes.len() == 0 {
        0
    } else {
        notes.last().end_beat + 1
    }
}

proof fn lemma_read_notes(toks: Seq<Seq<char>>)
    requires
        tokens_fit(toks),
        read_notes(toks) is Some,
    ensures
        ({
            let (ns, t) = read_notes(toks)->0;
            &&& ns.len() == toks.len()
            &&& 0 <= t <= 65535
            &&& notes_tile(ns, t)
            &&& forall|i: int|
                0 <= i < ns.len() ==> {
                    &&& #[trigger] ns[i].key == key_of(toks[i][0])
                    &&& ns[i].end_beat - ns[i].start_beat + 1 == token_beats(toks[i])->0
                    &&& token_readable(toks[i])
                }
        }),
    decreases toks.len(),
{
    if toks.len() > 0 {
        let pre = toks.drop_last();
        lemma_read_notes(pre);
        let (ns0, t0) = read_notes(pre)->0;
        let (ns, t) = read_notes(toks)->0;
        let b = token_beats(toks.last())->0;
        assert(0 < t0 + b <= 65535);
        assert(ns == ns0.push(ns.last()));
        assert(ns.last().start_beat == t0);
        assert(ns.last().end_beat == t0 + b - 1);
        assert forall|i: int| 0 <= i < ns.len() implies {
            &&& #[trigger] ns[i].key == key_of(toks[i][0])
            &&& ns[i].end_beat - ns[i].start_beat + 1 == token_beats(toks[i])->0
            &&& token_readable(toks[i])
        } by {
            if i < ns0.len() {
                assert(ns[i] == ns0[i]);
                assert(toks[i] == pre[i]);
            }
        }
        assert forall|i: int| 0 <= i < ns.len() - 1 implies #[trigger] ns[i + 1].start_beat
            == ns[i].end_beat + 1 by {
            if i + 1 < ns0.len() {
                assert(ns[i + 1] == ns0[i + 1]);
                assert(ns[i] == ns0[i]);
            } else {
                assert(ns[i] == ns0.last());
            }
        }
    }
}

/// Every song read from a sheet is rewound and its notes lie end to end
/// from beat 0, one note per note word, each with the key of the word's
/// symbol and lasting as many eighth beats as the word says (8 when it says
/// nothing).
pub proof fn law_song_notes_tile(data: Seq<char>)
    requires
        notes_fit(data),
        song_of(data) is Some,
    ensures
        ({
            let s = song_of(data)->0;
            let toks = note_tokens(data);
            &&& s.cursor == 0
            &&& notes_tile(s.notes, s.total_beat)
            &&& s.notes.len() == toks.len()
            &&& forall|i: int|
                0 <= i < s.notes.len() ==> {
                    &&& #[trigger] s.notes[i].key == key_of(toks[i][0])
                    &&& toks[i].len() == 1 ==> s.notes[i].end_beat - s.notes[i].start_beat + 1
                        == 8
                    &&& toks[i].len() >= 2 ==> '0' <= toks[i][1] <= '9'
                    &&& toks[i].len() >= 2 ==> s.notes[i].end_beat - s.notes[i].start_beat + 1
                        == (toks[i][1] as int) - ('0' as int)
                }
        }),
{
    let toks = note_tokens(data);
    lemma_read_notes(toks);
    let s = song_of(data)->0;
    let read = read_notes(toks)->0;
    assert(s.notes == read.0);
    assert forall|i: int| 0 <= i < s.notes.len() implies {
        &&& #[trigger] s.notes[i].key == key_of(toks[i][0])
        &&& toks[i].len() == 1 ==> s.notes[i].end_beat - s.notes[i].start_beat + 1 == 8
        &&& toks[i].len() >= 2 ==> '0' <= toks[i][1] <= '9'
        &&& toks[i].len() >= 2 ==> s.notes[i].end_beat - s.notes[i].start_beat + 1 == (
        toks[i][1] as int) - ('0' as int)
    } by {
        assert(read.0[i].key == key_of(toks[i][0]));
        assert(token_readable(toks[i]));
    }
}


/// A song ready to play: rewound, its notes end to end from beat 0, each
/// lasting at least one eighth beat.
pub open spec fn ready_song(s: SongView) -> bool {
    &&& s.cursor == 0
    &&& notes_tile(s.notes, s.total_beat)
    &&& forall|i: int|
        0 <= i < s.notes.len() ==> #[trigger] s.notes[i].start_beat <= s.notes[i].end_beat
}

/// The song after its first `k` eighth beats are played.
pub open spec fn run_song(s: SongView, k: nat) -> SongView
    decreases k,
{
    if k == 0 {
        s
    } else {
        note_step(k - 1, run_song(s, (k - 1) as nat)).0
    }
}

/// The note that starts when a song plays its eighth beat `b`.
pub open spec fn note_played(s: SongView, b: nat) -> Option<Note> {
    note_step(b as int, run_song(s, b)).2
}

proof fn lemma_run_song_keeps(s: SongView, k: nat)
    ensures
        run_song(s, k).notes == s.notes,
        run_song(s, k).total_beat == s.total_beat,
    decreases k,
{
    if k > 0 {
        lemma_run_song_keeps(s, (k - 1) as nat);
    }
}

proof fn lemma_starts_increase(s: SongView, i: int, j: int)
    requires
        ready_song(s),
        0 <= i < j < s.notes.len(),
    ensures
        s.notes[i].start_beat < s.notes[j].start_beat,
    decreases j - i,
{
    let p = j - 1;
    assert(s.notes[p + 1].start_beat == s.notes[p].end_beat + 1);
    assert(s.notes[j - 1].start_beat <= s.notes[j - 1].end_beat);
    if i < j - 1 {
        lemma_starts_increase(s, i, j - 1);
    }
}

proof fn lemma_run_song_position(s: SongView, k: nat)
    requires
        ready_song(s),
        k < s.total_beat,
    ensures
        ({
            let c = run_song(s, k).cursor;
            &&& 0 <= c < s.notes.len()
            &&& s.notes[c].start_beat <= k <= s.notes[c].end_beat + 1
        }),
    decreases k,
{
    lemma_run_song_keeps(s, k);
    if k == 0 {
        assert(s.notes.len() > 0);
        assert(s.notes[0].start_beat <= s.notes[0].end_beat);
    } else {
        let k0 = (k - 1) as nat;
        lemma_run_song_position(s, k0);
        lemma_run_song_keeps(s, k0);
        let r = run_song(s, k0);
        let c = r.cursor;
        if k0 > s.notes[c].end_beat {
            if c == s.notes.len() - 1 {
                assert(false);
            }
            assert(s.notes[c + 1].start_beat == s.notes[c].end_beat + 1);
            assert(s.notes[c + 1].start_beat <= s.notes[c + 1].end_beat);
        }
    }
}

/// Played from the start, a song lights each note on the eighth beat on
/// which it starts and on no other: on beat `b` the note that starts there
/// comes out, and none does when no note starts there.
pub proof fn law_notes_start_on_their_beat(s: SongView, b: nat)
    requires
        ready_song(s),
        b < s.total_beat,
    ensures
        forall|i: int|
            0 <= i < s.notes.len() && #[trigger] s.notes[i].start_beat == b ==> note_played(s, b)
                == Some(s.notes[i]),
        (forall|i: int| 0 <= i < s.notes.len() ==> #[trigger] s.notes[i].start_beat != b)
            ==> note_played(s, b) is None,
{
    lemma_run_song_position(s, b);
    lemma_run_song_keeps(s, b);
    let r = run_song(s, b);
    let c = r.cursor;
    assert forall|i: int|
        0 <= i < s.notes.len() && #[trigger] s.notes[i].start_beat == b implies note_played(s, b)
        == Some(s.notes[i]) by {
        if b > s.notes[c].end_beat {
            assert(c + 1 < s.notes.len()) by {
                if c == s.notes.len() - 1 {
                    assert(false);
                }
            }
            assert(s.notes[c + 1].start_beat == b);
            if i < c + 1 {
                lemma_starts_increase(s, i, c + 1);
            } else if i > c + 1 {
                lemma_starts_increase(s, c + 1, i);
            }
        } else {
            assert(s.notes[c].start_beat <= s.notes[c].end_beat);
            if i < c {
                lemma_starts_increase(s, i, c);
            } else if i > c {
                if c + 1 < i {
                    lemma_starts_increase(s, c + 1, i);
                }
                assert(s.notes[c + 1].start_beat == s.notes[c].end_beat + 1);
            }
        }
    }
    if forall|i: int| 0 <= i < s.notes.len() ==> #[trigger] s.notes[i].start_beat != b {
        if b > s.notes[c].end_beat {
            assert(c + 1 < s.notes.len()) by {
                if c == s.notes.len() - 1 {
                    assert(false);
                }
            }
            assert(s.notes[c + 1].start_beat == b);
        } else {
            assert(s.notes[c].start_beat != b);
        }
    }
}


/// The LED commands of a song's eighth beat `b`.
pub open spec fn commands_played(s: SongView, b: nat) -> Seq<Command> {
    note_step(b as int, run_song(s, b)).1
}

/// Played from the start, a song switches LEDs only where notes meet: on
/// beat 0 it lights the first note's key; on the start of any later note it
/// puts out the key of the note before and lights the new one; on any other
/// beat it switches nothing.
pub proof fn law_leds_switch_where_notes_meet(s: SongView, b: nat)
    requires
        ready_song(s),
        b < s.total_beat,
    ensures
        b == 0 ==> commands_played(s, b) == seq![Command::TurnOn(s.notes[0].key)],
        forall|i: int|
            0 < i < s.notes.len() && #[trigger] s.notes[i].start_beat == b ==> commands_played(
                s,
                b,
            ) == seq![Command::TurnOff(s.notes[i - 1].key), Command::TurnOn(s.notes[i].key)],
        (forall|i: int| 0 <= i < s.notes.len() ==> #[trigger] s.notes[i].start_beat != b)
            ==> commands_played(s, b) == Seq::<Command>::empty(),
{
    lemma_run_song_position(s, b);
    lemma_run_song_keeps(s, b);
    law_notes_start_on_their_beat(s, b);
    let c = run_song(s, b).cursor;
    if b == 0 {
        assert(s.notes[0].start_beat == 0);
        if c > 0 {
            lemma_starts_increase(s, 0, c);
        }
    }
    assert forall|i: int|
        0 < i < s.notes.len() && #[trigger] s.notes[i].start_beat == b implies commands_played(
        s,
        b,
    ) == seq![Command::TurnOff(s.notes[i - 1].key), Command::TurnOn(s.notes[i].key)] by {
        let q = i - 1;
        assert(s.notes[q + 1].start_beat == s.notes[q].end_beat + 1);
        if b > s.notes[c].end_beat {
            assert(c + 1 < s.notes.len()) by {
                if c == s.notes.len() - 1 {
                    assert(false);
                }
            }
            assert(s.notes[c + 1].start_beat == b);
            if i < c + 1 {
                lemma_starts_increase(s, i, c + 1);
            } else if i > c + 1 {
                lemma_starts_increase(s, c + 1, i);
            }
        } else {
            // the current note starts on `b`, so it is note `i`, and the
            // note before has ended on `b - 1`: the cursor would have moved.
            if i < c {
                lemma_starts_increase(s, i, c);
            } else if i > c {
                if c + 1 < i {
                    lemma_starts_increase(s, c + 1, i);
                }
                assert(s.notes[c + 1].start_beat == s.notes[c].end_beat + 1);
            }
            assert(c == i);
            assert(s.notes[q].end_beat + 1 == b);
            if c > 0 {
                assert(run_song(s, b) == note_step(b - 1, run_song(s, (b - 1) as nat)).0);
                lemma_run_song_position(s, (b - 1) as nat);
                lemma_run_song_keeps(s, (b - 1) as nat);
                let c0 = run_song(s, (b - 1) as nat).cursor;
                if c0 < q {
                    lemma_starts_increase(s, c0, q);
                    let p0 = c0;
                    assert(s.notes[p0 + 1].start_beat == s.notes[p0].end_beat + 1);
                    if p0 + 1 < q {
                        lemma_starts_increase(s, p0 + 1, q);
                    }
                }
                if c0 > q {
                    lemma_starts_increase(s, q, c0);
                }
            }
        }
    }
}

/// The player after `k` calls of `play`.
pub open spec fn run_player(p: PlayerView, k: nat) -> PlayerView
    decreases k,
{
    if k == 0 {
        p
    } else {
        play_step(run_player(p, (k - 1) as nat)).0
    }
}

/// A player at the start of a ready theme plays it beat by beat: after `k`
/// calls of `play` it stands at beat `k` with the theme played `k` eighth
/// beats; each call before the end returns the note that the theme starts on
/// that beat, and the call after the last beat ends playback and does
/// nothing else.
pub proof fn law_player_follows_theme(p: PlayerView, s: SongView, k: nat)
    requires
        p.theme == Some(s),
        ready_song(s),
        p.current_beat == 0,
        !p.ended,
        k <= s.total_beat,
    ensures
        run_player(p, k).theme == Some(run_song(s, k)),
        run_player(p, k).current_beat == k,
        !run_player(p, k).ended,
        k < s.total_beat ==> play_step(run_player(p, k)).2 == note_played(s, k),
        k == s.total_beat ==> play_step(run_player(p, k)) == (
            PlayerView { ended: true, ..run_player(p, k) },
            Seq::<Command>::empty(),
            None::<Note>,
        ),
    decreases k,
{
    lemma_run_song_keeps(s, k);
    if k > 0 {
        law_player_follows_theme(p, s, (k - 1) as nat);
        lemma_run_song_keeps(s, (k - 1) as nat);
    }
}

/// Once playback has ended, `play` changes nothing, switches nothing and
/// returns no note, until the player is reset or given a new sheet.
pub proof fn law_play_after_end(p: PlayerView)
    requires
        p.ended,
    ensures
        play_step(p) == (p, Seq::<Command>::empty(), None::<Note>),
{
}

/// Resetting twice is resetting once.
pub proof fn law_reset_idempotent(p: PlayerView)
    ensures
        reset_state(reset_state(p)) == reset_state(p),
{
    let once = reset_state(p);
    let twice = reset_state(once);
    assert(twice.accompanies =~= once.accompanies);
    assert(twice.theme == once.theme);
}

/// A reset brings a ready theme that has been played back to its start:
/// the player is at beat 0, not ended, with the theme as it was before it
/// was played, so it plays it again from the start.
pub proof fn law_reset_restarts_theme(p: PlayerView, s: SongView, k: nat)
    requires
        ready_song(s),
        p.theme == Some(run_song(s, k)),
    ensures
        reset_state(p).theme == Some(s),
        reset_state(p).current_beat == 0,
        !reset_state(p).ended,
{
    lemma_run_song_keeps(s, k);
}


/// A song read from a sheet in which no note word has length `0` is ready
/// to play.
pub proof fn law_read_song_is_ready(data: Seq<char>)
    requires
        notes_fit(data),
        song_of(data) is Some,
        forall|i: int|
            0 <= i < note_tokens(data).len() ==> #[trigger] token_beats(note_tokens(data)[i])
                != Some(0int),
    ensures
        ready_song(song_of(data)->0),
{
    law_song_notes_tile(data);
    let s = song_of(data)->0;
    assert forall|i: int| 0 <= i < s.notes.len() implies #[trigger] s.notes[i].start_beat
        <= s.notes[i].end_beat by {
        let t = note_tokens(data)[i];
        lemma_read_notes(note_tokens(data));
        let read = read_notes(note_tokens(data))->0;
        assert(s.notes == read.0);
        assert(s.notes[i].key == key_of(t[0]));
        assert(token_readable(t));
        assert(token_beats(t) != Some(0int));
        assert(token_beats(t)->0 >= 0);
    }
}


/// The symbols of the sheet and their keys: `D b g e c 6 4 2 1 3 5 7 d f a C E`
/// stand for keys 0 to 16 in that order, no two symbols share a key, and
/// every other character stands for the unwired key 255.
pub proof fn law_symbol_table(c: char, d: char)
    ensures
        key_of('D') == 0u8,
        key_of('b') == 1u8,
        key_of('g') == 2u8,
        key_of('e') == 3u8,
        key_of('c') == 4u8,
        key_of('6') == 5u8,
        key_of('4') == 6u8,
        key_of('2') == 7u8,
        key_of('1') == 8u8,
        key_of('3') == 9u8,
        key_of('5') == 10u8,
        key_of('7') == 11u8,
        key_of('d') == 12u8,
        key_of('f') == 13u8,
        key_of('a') == 14u8,
        key_of('C') == 15u8,
        key_of('E') == 16u8,
        c != 'D' && c != 'b' && c != 'g' && c != 'e' && c != 'c' && c != '6' && c != '4' && c
            != '2' && c != '1' && c != '3' && c != '5' && c != '7' && c != 'd' && c != 'f' && c
            != 'a' && c != 'C' && c != 'E' ==> key_of(c) == 255u8,
        key_of(c) == key_of(d) && key_of(c) != 255u8 ==> c == d,
{
}

/// A player at the start: beat 0, not ended, the theme and every
/// accompaniment at their first note.
pub open spec fn at_start(p: PlayerView) -> bool {
    &&& p.current_beat == 0
    &&& !p.ended
    &&& p.theme matches Some(t) ==> t.cursor == 0
    &&& forall|i: int|
        0 <= i < p.accompanies.len() ==> (#[trigger] p.accompanies[i] matches Some(a)
            ==> a.cursor == 0)
}

/// A reset puts the player at the start, keeps its speed and bar length,
/// and changes no song but for rewinding it.
pub proof fn law_reset_is_at_start(p: PlayerView)
    ensures
        at_start(reset_state(p)),
        reset_state(p).time_per_beat == p.time_per_beat,
        reset_state(p).beat_per_group == p.beat_per_group,
        reset_state(p).accompanies.len() == p.accompanies.len(),
        forall|i: int|
            0 <= i < p.accompanies.len() ==> match #[trigger] p.accompanies[i] {
                None => reset_state(p).accompanies[i] is None,
                Some(a) => reset_state(p).accompanies[i] matches Some(b) && b.notes == a.notes
                    && b.total_beat == a.total_beat,
            },
        match p.theme {
            None => reset_state(p).theme is None,
            Some(t) => reset_state(p).theme matches Some(u) && u.notes == t.notes
                && u.total_beat == t.total_beat,
        },
{
}

/// Loading a sheet puts the player at beat 0, not ended, whatever it was
/// doing: with a ready theme that lasts, the next `play` lights the theme's
/// first note and returns it.
pub proof fn law_loaded_player_starts(
    p: PlayerView,
    sheet: SheetView,
    time_per_beat: u32,
    s: SongView,
)
    requires
        sheet.theme == Some(s),
        ready_song(s),
        s.total_beat > 0,
    ensures
        load_state(p, sheet, time_per_beat).current_beat == 0,
        !load_state(p, sheet, time_per_beat).ended,
        play_step(load_state(p, sheet, time_per_beat)).2 == Some(s.notes[0]),
        play_step(load_state(p, sheet, time_per_beat)).1[0] == Command::TurnOn(s.notes[0].key),
{
    law_notes_start_on_their_beat(s, 0);
    assert(s.notes.len() > 0);
    assert(s.notes[0].start_beat == 0);
    assert(note_played(s, 0) == Some(s.notes[0]));
}

/// The accompaniments after each has played its first `k` eighth beats.
pub open spec fn accompaniments_after(accs: Seq<Option<SongView>>, k: nat) -> Seq<
    Option<SongView>,
> {
    accs.map_values(
        |o: Option<SongView>|
            match o {
                Some(a) => Some(run_song(a, k)),
                None => None,
            },
    )
}

/// The commands of the accompaniments on beat `k`, one after the other.
pub open spec fn accompaniment_commands(accs: Seq<Option<SongView>>, k: nat) -> Seq<Command> {
    accs.map_values(
        |o: Option<SongView>|
            match o {
                Some(a) => commands_played(a, k),
                None => Seq::<Command>::empty(),
            },
    ).flatten()
}

proof fn lemma_accompany_step_runs(accs: Seq<Option<SongView>>, k: nat)
    ensures
        accompany_step(k as int, accompaniments_after(accs, k)) == (
            accompaniments_after(accs, k + 1),
            accompaniment_commands(accs, k),
        ),
    decreases accs.len(),
{
    let f = |o: Option<SongView>|
        match o {
            Some(a) => Some(run_song(a, k)),
            None => None,
        };
    let g = |o: Option<SongView>|
        match o {
            Some(a) => Some(run_song(a, k + 1)),
            None => None,
        };
    let h = |o: Option<SongView>|
        match o {
            Some(a) => commands_played(a, k),
            None => Seq::<Command>::empty(),
        };
    if accs.len() == 0 {
        assert(accompaniments_after(accs, k) =~= Seq::<Option<SongView>>::empty());
        assert(accompaniments_after(accs, k + 1) =~= Seq::<Option<SongView>>::empty());
        assert(accs.map_values(h) =~= Seq::<Seq<Command>>::empty());
    } else {
        let pre = accs.drop_last();
        lemma_accompany_step_runs(pre, k);
        let cur = accompaniments_after(accs, k);
        assert(cur.drop_last() =~= accompaniments_after(pre, k));
        assert(cur.last() == f(accs.last()));
        assert(accompaniments_after(accs, k + 1) =~= accompaniments_after(pre, k + 1).push(
            g(accs.last()),
        ));
        assert(accs.map_values(h) =~= pre.map_values(h).push(h(accs.last())));
        pre.map_values(h).lemma_flatten_push(h(accs.last()));
    }
}

/// Accompaniments play along with the theme: from a player at the start
/// whose theme lasts `total` eighth beats, after `k <= total` calls of
/// `play` every accompaniment has played its first `k` eighth beats exactly
/// as it would alone, and each call before the end sends the theme's
/// commands, then each accompaniment's commands for that beat in order,
/// then the wait.
pub proof fn law_player_plays_accompaniments(p: PlayerView, s: SongView, k: nat)
    requires
        p.theme == Some(s),
        p.current_beat == 0,
        !p.ended,
        k <= s.total_beat,
    ensures
        run_player(p, k).accompanies == accompaniments_after(p.accompanies, k),
        run_player(p, k).theme == Some(run_song(s, k)),
        run_player(p, k).current_beat == k,
        !run_player(p, k).ended,
        run_player(p, k).time_per_beat == p.time_per_beat,
        k < s.total_beat ==> play_step(run_player(p, k)) == (
            run_player(p, k + 1),
            commands_played(s, k) + accompaniment_commands(p.accompanies, k) + seq![
                Command::DelayUs(p.time_per_beat),
            ],
            note_played(s, k),
        ),
    decreases k,
{
    lemma_run_song_keeps(s, k);
    if k == 0 {
        assert(accompaniments_after(p.accompanies, 0) =~= p.accompanies);
    } else {
        law_player_plays_accompaniments(p, s, (k - 1) as nat);
        lemma_run_song_keeps(s, (k - 1) as nat);
        lemma_accompany_step_runs(p.accompanies, (k - 1) as nat);
    }
    if k < s.total_beat {
        lemma_accompany_step_runs(p.accompanies, k);
    }
}


/// How a sheet is laid out: sections joined by `_`, the first being the
/// header's fields joined by `,`. The beats per bar are read from the first
/// field and the tempo is the second field; the second section is the theme
/// and every further section an accompaniment, in order. A first field that
/// is not a number refuses the sheet.
pub proof fn law_sheet_layout(sections: Seq<Seq<char>>, fields: Seq<Seq<char>>)
    requires
        sections.len() >= 2,
        fields.len() >= 2,
        forall|i: int, j: int|
            0 <= i < sections.len() && 0 <= j < sections[i].len() ==> #[trigger] sections[i][j]
                != '_',
        forall|i: int, j: int|
            0 <= i < fields.len() && 0 <= j < fields[i].len() ==> #[trigger] fields[i][j] != ',',
        sections[0] == join_with(fields, ','),
    ensures
        sheet_of(join_with(sections, '_')) == match parse_u8_spec(fields[0]) {
            Some(b) => Some(
                SheetView {
                    beat_per_group: b,
                    tempo: fields[1],
                    theme: song_of(sections[1]),
                    accompanies: Seq::new(
                        (sections.len() - 2) as nat,
                        |i: int| song_of(sections[i + 2]),
                    ),
                },
            ),
            None => None,
        },
{
    law_join_split(sections, '_');
    law_join_split(fields, ',');
    let s = join_with(sections, '_');
    assert(sheet_sections(s) == sections);
    assert(split_on(sheet_sections(s)[0], ',') == fields);
    assert(sections.skip(2).map_values(|d: Seq<char>| song_of(d)) =~= Seq::new(
        (sections.len() - 2) as nat,
        |i: int| song_of(sections[i + 2]),
    ));
}

/// How a song is laid out: note words joined by `,` into bars, bars joined
/// by `|`; the song's words are all the bars' words, bar after bar.
pub proof fn law_song_layout(bars: Seq<Seq<Seq<char>>>)
    requires
        bars.len() >= 1,
        forall|b: int| 0 <= b < bars.len() ==> #[trigger] bars[b].len() >= 1,
        forall|b: int, i: int, j: int|
            0 <= b < bars.len() && 0 <= i < bars[b].len() && 0 <= j < bars[b][i].len()
                ==> #[trigger] bars[b][i][j] != ',' && bars[b][i][j] != '|',
    ensures
        note_tokens(
            join_with(bars.map_values(|words: Seq<Seq<char>>| join_with(words, ',')), '|'),
        ) == bars.flatten(),
{
    let texts = bars.map_values(|words: Seq<Seq<char>>| join_with(words, ','));
    assert forall|b: int, j: int|
        0 <= b < texts.len() && 0 <= j < texts[b].len() implies #[trigger] texts[b][j] != '|' by {
        lemma_join_avoids(bars[b], ',', '|');
    }
    law_join_split(texts, '|');
    let data = join_with(texts, '|');
    assert forall|b: int| 0 <= b < texts.len() implies #[trigger] split_on(texts[b], ',')
        == bars[b] by {
        law_join_split(bars[b], ',');
    }
    assert(split_on(data, '|').map_values(|bar: Seq<char>| split_on(bar, ',')) =~= bars);
}

proof fn lemma_join_avoids(pieces: Seq<Seq<char>>, sep: char, c: char)
    requires
        sep != c,
        forall|i: int, j: int|
            0 <= i < pieces.len() && 0 <= j < pieces[i].len() ==> #[trigger] pieces[i][j] != c,
    ensures
        forall|j: int|
            0 <= j < join_with(pieces, sep).len() ==> #[trigger] join_with(pieces, sep)[j] != c,
    decreases pieces.len(),
{
    if pieces.len() > 1 {
        let pre = pieces.drop_last();
        assert forall|i: int, j: int|
            0 <= i < pre.len() && 0 <= j < pre[i].len() implies #[trigger] pre[i][j] != c by {
            assert(pre[i] == pieces[i]);
        }
        lemma_join_avoids(pre, sep, c);
        let a = join_with(pre, sep).push(sep);
        let l = pieces.last();
        assert forall|j: int| 0 <= j < join_with(pieces, sep).len() implies #[trigger] join_with(
            pieces,
            sep,
        )[j] != c by {
            if j < a.len() - 1 {
                assert(join_with(pieces, sep)[j] == join_with(pre, sep)[j]);
            } else if j >= a.len() {
                assert(join_with(pieces, sep)[j] == l[j - a.len()]);
                assert(pieces[pieces.len() - 1][j - a.len()] != c);
            }
        }
    } else if pieces.len() == 1 {
        assert forall|j: int| 0 <= j < pieces[0].len() implies #[trigger] pieces[0][j] != c by {}
    }
}


/// A player with no theme has nothing to play: `play` ends playback,
/// switches nothing, returns no note and changes nothing else.
pub proof fn law_play_without_theme(p: PlayerView)
    requires
        p.theme is None,
    ensures
        play_step(p).0.ended,
        play_step(p).0.current_beat == p.current_beat,
        play_step(p).0.theme is None,
        play_step(p).0.accompanies == p.accompanies,
        play_step(p).1.len() == 0,
        play_step(p).2 is None,
{
}

} // verus!
