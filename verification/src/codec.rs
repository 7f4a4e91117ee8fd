//! The persisted document: a single JSON object holding `routes`, `volumes`
//! and `app_categories`, rendered in one canonical shape and parsed back.
//!
//! The renderer and the parser are both specified mathematically; the
//! round-trip law (`lemma_state_round_trip`) proves that parsing the rendering
//! of any state yields exactly that state, so a persisted snapshot reloads to
//! the state that was saved. Any other document — corrupt, truncated, or
//! foreign — makes the parser (and so the loader) fall back to the empty
//! state rather than fail.

use vstd::prelude::*;
use vstd::string::*;

use crate::state::{opt_str_view, MixerState, RouteTable, RoutesView, StateView, VolumeTable,
    cats_sorted, VOLUME_FULL};
use crate::stream::{spec_stream_name, StreamId};
use crate::text::{
    spec_dec, spec_escape, spec_is_digit, spec_parse_jstring_body, spec_parse_u32,
    lemma_parse_jstring_round, lemma_parse_u32_round, lemma_dec_digits,
    append_jstring, append_u32, parse_jstring_at, parse_u32_at, str_chars,
};

verus! {

// ---------------------------------------------------------------------------
// the fixed tokens of the document
// ---------------------------------------------------------------------------
pub open spec fn tok_head() -> Seq<char> {
    "{\"routes\":{\"game\":"@
}

pub open spec fn tok_voice() -> Seq<char> {
    ",\"voice\":"@
}

pub open spec fn tok_music() -> Seq<char> {
    ",\"music\":"@
}

pub open spec fn tok_vols() -> Seq<char> {
    "},\"volumes\":{\"game\":"@
}

pub open spec fn tok_cats() -> Seq<char> {
    "},\"app_categories\":{"@
}

pub open spec fn tok_null() -> Seq<char> {
    "null"@
}

pub open spec fn tok_qcolonq() -> Seq<char> {
    "\":\""@
}

pub open spec fn tok_game_q() -> Seq<char> {
    "game\""@
}

pub open spec fn tok_voice_q() -> Seq<char> {
    "voice\""@
}

pub open spec fn tok_music_q() -> Seq<char> {
    "music\""@
}

/// The character contents of every fixed token.
pub proof fn lemma_tokens()
    ensures
        tok_null() == seq!['n', 'u', 'l', 'l'],
        tok_qcolonq() == seq!['"', ':', '"'],
        tok_game_q() == spec_stream_name(StreamId::Game) + seq!['"'],
        tok_voice_q() == spec_stream_name(StreamId::Voice) + seq!['"'],
        tok_music_q() == spec_stream_name(StreamId::Music) + seq!['"'],
        tok_game_q()[0] == 'g' && tok_game_q().len() == 5,
        tok_voice_q()[0] == 'v' && tok_voice_q().len() == 6,
        tok_music_q()[0] == 'm' && tok_music_q().len() == 6,
        tok_voice()[0] == ',' && tok_voice().len() == 9,
        tok_music()[0] == ',' && tok_music().len() == 9,
        tok_vols()[0] == '}' && tok_vols().len() == 20,
        tok_cats()[0] == '}' && tok_cats().len() == 20,
{
    reveal_strlit("null");
    reveal_strlit("\":\"");
    reveal_strlit("game\"");
    reveal_strlit("voice\"");
    reveal_strlit("music\"");
    reveal_strlit(",\"voice\":");
    reveal_strlit(",\"music\":");
    reveal_strlit("},\"volumes\":{\"game\":");
    reveal_strlit("},\"app_categories\":{");
    assert(tok_null() =~= seq!['n', 'u', 'l', 'l']);
    assert(tok_qcolonq() =~= seq!['"', ':', '"']);
    assert(tok_game_q() =~= spec_stream_name(StreamId::Game) + seq!['"']);
    assert(tok_voice_q() =~= spec_stream_name(StreamId::Voice) + seq!['"']);
    assert(tok_music_q() =~= spec_stream_name(StreamId::Music) + seq!['"']);
}

// ---------------------------------------------------------------------------
// rendering
// ---------------------------------------------------------------------------
/// A route value: `null` for the system default, else the quoted, escaped id.
pub open spec fn spec_render_route(d: Option<Seq<char>>) -> Seq<char> {
    match d {
        Option::None => tok_null(),
        Option::Some(s) => seq!['"'] + spec_escape(s) + seq!['"'],
    }
}

/// A stream name with its closing quote.
pub open spec fn spec_stream_tok(t: StreamId) -> Seq<char> {
    spec_stream_name(t) + seq!['"']
}

/// One category entry: `"<pid>":"<stream>"`.
pub open spec fn spec_render_cat_entry(e: (u32, StreamId)) -> Seq<char> {
    seq!['"'] + spec_dec(e.0 as int) + tok_qcolonq() + spec_stream_tok(e.1)
}

/// The category entries, comma-separated, in the order they stand in `c`.
pub open spec fn spec_render_cats(c: Seq<(u32, StreamId)>) -> Seq<char>
    decreases c.len(),
{
    if c.len() == 0 {
        Seq::empty()
    } else if c.len() == 1 {
        spec_render_cat_entry(c[0])
    } else {
        spec_render_cat_entry(c[0]) + seq![','] + spec_render_cats(c.drop_first())
    }
}

/// The whole persisted document for a state.
pub open spec fn spec_render_state(v: StateView) -> Seq<char> {
    tok_head() + (spec_render_route(v.routes.game) + (tok_voice() + (spec_render_route(
        v.routes.voice,
    ) + (tok_music() + (spec_render_route(v.routes.music) + (tok_vols() + (spec_dec(
        v.volumes.game as int,
    ) + (tok_voice() + (spec_dec(v.volumes.voice as int) + (tok_music() + (spec_dec(
        v.volumes.music as int,
    ) + (tok_cats() + (spec_render_cats(v.cats) + (seq!['}'] + seq!['}']))))))))))))))
}

// ---------------------------------------------------------------------------
// parsing
// ---------------------------------------------------------------------------
/// Consume an exact token; returns how many characters were consumed.
pub open spec fn spec_expect(s: Seq<char>, tok: Seq<char>) -> Option<int> {
    if tok.len() <= s.len() && s.subrange(0, tok.len() as int) == tok {
        Option::Some(tok.len() as int)
    } else {
        Option::None
    }
}

/// Parse a route value: `null` or a quoted, escaped device id.
pub open spec fn spec_parse_route(s: Seq<char>) -> Option<(Option<Seq<char>>, int)> {
    if s.len() == 0 {
        Option::None
    } else if s[0] == 'n' {
        match spec_expect(s, tok_null()) {
            Option::Some(u) => Option::Some((Option::None, u)),
            Option::None => Option::None,
        }
    } else if s[0] == '"' {
        match spec_parse_jstring_body(s.drop_first(), Seq::empty()) {
            Option::Some((v, u)) => Option::Some((Option::Some(v), u + 1)),
            Option::None => Option::None,
        }
    } else {
        Option::None
    }
}

/// Parse a stream name with its closing quote.
pub open spec fn spec_parse_stream(s: Seq<char>) -> Option<(StreamId, int)> {
    match spec_expect(s, tok_game_q()) {
        Option::Some(u) => Option::Some((StreamId::Game, u)),
        Option::None => match spec_expect(s, tok_voice_q()) {
            Option::Some(u) => Option::Some((StreamId::Voice, u)),
            Option::None => match spec_expect(s, tok_music_q()) {
                Option::Some(u) => Option::Some((StreamId::Music, u)),
                Option::None => Option::None,
            },
        },
    }
}

/// Parse one category entry: `"<pid>":"<stream>"`.
pub open spec fn spec_parse_cat_entry(s: Seq<char>) -> Option<((u32, StreamId), int)> {
    if s.len() == 0 || s[0] != '"' {
        Option::None
    } else {
        let s1 = s.skip(1);
        match spec_parse_u32(s1) {
            Option::None => Option::None,
            Option::Some((pid, u1)) => {
                let s2 = s1.skip(u1);
                match spec_expect(s2, tok_qcolonq()) {
                    Option::None => Option::None,
                    Option::Some(u2) => {
                        let s3 = s2.skip(u2);
                        match spec_parse_stream(s3) {
                            Option::None => Option::None,
                            Option::Some((t, u3)) => Option::Some(((pid, t), 1 + u1 + u2 + u3)),
                        }
                    },
                }
            },
        }
    }
}

/// Parse category entries up to and including the closing brace of the
/// `app_categories` object, appending onto `acc`.
pub open spec fn spec_parse_cats(s: Seq<char>, acc: Seq<(u32, StreamId)>) -> Option<
    (Seq<(u32, StreamId)>, int),
>
    decreases s.len(),
{
    if s.len() == 0 {
        Option::None
    } else if s[0] == '}' {
        Option::Some((acc, 1))
    } else {
        match spec_parse_cat_entry(s) {
            Option::None => Option::None,
            Option::Some((e, u)) => {
                if 1 <= u && u < s.len() {
                    if s[u] == ',' {
                        if u + 1 < s.len() {
                            match spec_parse_cats(s.skip(u + 1), acc.push(e)) {
                                Option::Some((c, u2)) => Option::Some((c, u + 1 + u2)),
                                Option::None => Option::None,
                            }
                        } else {
                            Option::None
                        }
                    } else if s[u] == '}' {
                        Option::Some((acc.push(e), u + 1))
                    } else {
                        Option::None
                    }
                } else {
                    Option::None
                }
            },
        }
    }
}

/// Parse the whole persisted document. The document must be consumed exactly.
pub open spec fn spec_parse_state(s: Seq<char>) -> Option<StateView> {
    match spec_expect(s, tok_head()) {
        Option::None => Option::None,
        Option::Some(u0) => {
            let s0 = s.skip(u0);
            match spec_parse_route(s0) {
                Option::None => Option::None,
                Option::Some((rg, u1)) => {
                    let s1 = s0.skip(u1);
                    match spec_expect(s1, tok_voice()) {
                        Option::None => Option::None,
                        Option::Some(u2) => {
                            let s2 = s1.skip(u2);
                            match spec_parse_route(s2) {
                                Option::None => Option::None,
                                Option::Some((rv, u3)) => {
                                    let s3 = s2.skip(u3);
                                    match spec_expect(s3, tok_music()) {
                                        Option::None => Option::None,
                                        Option::Some(u4) => {
                                            let s4 = s3.skip(u4);
                                            match spec_parse_route(s4) {
                                                Option::None => Option::None,
                                                Option::Some((rm, u5)) => {
                                                    let s5 = s4.skip(u5);
                                                    spec_parse_state_vols(s5, rg, rv, rm)
                                                },
                                            }
                                        },
                                    }
                                },
                            }
                        },
                    }
                },
            }
        },
    }
}

/// Continuation of `spec_parse_state`: the volumes and categories.
pub open spec fn spec_parse_state_vols(
    s: Seq<char>,
    rg: Option<Seq<char>>,
    rv: Option<Seq<char>>,
    rm: Option<Seq<char>>,
) -> Option<StateView> {
    match spec_expect(s, tok_vols()) {
        Option::None => Option::None,
        Option::Some(u0) => {
            let s0 = s.skip(u0);
            match spec_parse_u32(s0) {
                Option::None => Option::None,
                Option::Some((vg, u1)) => {
                    let s1 = s0.skip(u1);
                    match spec_expect(s1, tok_voice()) {
                        Option::None => Option::None,
                        Option::Some(u2) => {
                            let s2 = s1.skip(u2);
                            match spec_parse_u32(s2) {
                                Option::None => Option::None,
                                Option::Some((vv, u3)) => {
                                    let s3 = s2.skip(u3);
                                    match spec_expect(s3, tok_music()) {
                                        Option::None => Option::None,
                                        Option::Some(u4) => {
                                            let s4 = s3.skip(u4);
                                            match spec_parse_u32(s4) {
                                                Option::None => Option::None,
                                                Option::Some((vm, u5)) => {
                                                    let s5 = s4.skip(u5);
                                                    spec_parse_state_cats(
                                                        s5,
                                                        rg,
                                                        rv,
                                                        rm,
                                                        vg,
                                                        vv,
                                                        vm,
                                                    )
                                                },
                                            }
                                        },
                                    }
                                },
                            }
                        },
                    }
                },
            }
        },
    }
}

/// Continuation of `spec_parse_state`: the categories and the outer close.
pub open spec fn spec_parse_state_cats(
    s: Seq<char>,
    rg: Option<Seq<char>>,
    rv: Option<Seq<char>>,
    rm: Option<Seq<char>>,
    vg: u32,
    vv: u32,
    vm: u32,
) -> Option<StateView> {
    match spec_expect(s, tok_cats()) {
        Option::None => Option::None,
        Option::Some(u0) => {
            let s0 = s.skip(u0);
            match spec_parse_cats(s0, Seq::empty()) {
                Option::None => Option::None,
                Option::Some((cats, u1)) => {
                    let s1 = s0.skip(u1);
                    if s1.len() == 1 && s1[0] == '}' {
                        Option::Some(
                            StateView {
                                routes: RoutesView { game: rg, voice: rv, music: rm },
                                volumes: VolumeTable { game: vg, voice: vv, music: vm },
                                cats: cats,
                            },
                        )
                    } else {
                        Option::None
                    }
                },
            }
        },
    }
}

// ---------------------------------------------------------------------------
// the round trip
// ---------------------------------------------------------------------------
/// A token at the front of a sequence is consumed exactly.
pub proof fn lemma_expect_prefix(tok: Seq<char>, rest: Seq<char>)
    ensures
        spec_expect(tok + rest, tok) == Option::Some(tok.len() as int),
        (tok + rest).skip(tok.len() as int) == rest,
{
    assert((tok + rest).subrange(0, tok.len() as int) =~= tok);
    assert((tok + rest).skip(tok.len() as int) =~= rest);
}

/// A token cannot be consumed where the first character differs.
pub proof fn lemma_expect_mismatch(s: Seq<char>, tok: Seq<char>)
    requires
        tok.len() >= 1,
        s.len() == 0 || s[0] != tok[0],
    ensures
        spec_expect(s, tok) is None,
{
    if tok.len() <= s.len() && s.subrange(0, tok.len() as int) == tok {
        assert(s.subrange(0, tok.len() as int)[0] == s[0]);
    }
}

/// Splitting a concatenation after the first part.
pub proof fn lemma_skip_concat(a: Seq<char>, b: Seq<char>)
    ensures
        (a + b).skip(a.len() as int) == b,
{
    assert((a + b).skip(a.len() as int) =~= b);
}

/// Round trip for a route value, whatever follows it.
pub proof fn lemma_parse_route_round(d: Option<Seq<char>>, rest: Seq<char>)
    ensures
        spec_parse_route(spec_render_route(d) + rest) == Option::Some(
            (d, spec_render_route(d).len() as int),
        ),
{
    lemma_tokens();
    let s = spec_render_route(d) + rest;
    match d {
        Option::None => {
            assert(s[0] == (tok_null() + rest)[0]);
            assert(tok_null()[0] == 'n');
            lemma_expect_prefix(tok_null(), rest);
        },
        Option::Some(v) => {
            assert(s =~= seq!['"'] + (spec_escape(v) + seq!['"'] + rest));
            assert(s[0] == '"');
            assert(s[0] != 'n');
            assert(s.drop_first() =~= spec_escape(v) + seq!['"'] + rest);
            lemma_parse_jstring_round(v, Seq::empty(), rest);
            assert(Seq::<char>::empty() + v =~= v);
            assert(spec_render_route(d).len() == spec_escape(v).len() + 2);
        },
    }
}

/// Round trip for a stream name token, whatever follows it.
pub proof fn lemma_parse_stream_round(t: StreamId, rest: Seq<char>)
    ensures
        spec_parse_stream(spec_stream_tok(t) + rest) == Option::Some(
            (t, spec_stream_tok(t).len() as int),
        ),
{
    lemma_tokens();
    let s = spec_stream_tok(t) + rest;
    match t {
        StreamId::Game => {
            lemma_expect_prefix(tok_game_q(), rest);
        },
        StreamId::Voice => {
            assert(s[0] == 'v');
            lemma_expect_mismatch(s, tok_game_q());
            lemma_expect_prefix(tok_voice_q(), rest);
        },
        StreamId::Music => {
            assert(s[0] == 'm');
            lemma_expect_mismatch(s, tok_game_q());
            lemma_expect_mismatch(s, tok_voice_q());
            lemma_expect_prefix(tok_music_q(), rest);
        },
    }
}

/// Round trip for one category entry, whatever follows it.
pub proof fn lemma_parse_cat_entry_round(e: (u32, StreamId), rest: Seq<char>)
    ensures
        spec_parse_cat_entry(spec_render_cat_entry(e) + rest) == Option::Some(
            (e, spec_render_cat_entry(e).len() as int),
        ),
        spec_render_cat_entry(e).len() >= 2,
{
    lemma_tokens();
    let pid = e.0;
    let t = e.1;
    let dec = spec_dec(pid as int);
    lemma_dec_digits(pid as int);
    let s = spec_render_cat_entry(e) + rest;
    let r1 = dec + (tok_qcolonq() + (spec_stream_tok(t) + rest));
    assert(s =~= seq!['"'] + r1);
    assert(s[0] == '"');
    assert(s.skip(1) =~= r1);
    let r2 = tok_qcolonq() + (spec_stream_tok(t) + rest);
    assert(r1 =~= dec + r2);
    assert(r2[0] == '"');
    assert(!spec_is_digit('"'));
    lemma_parse_u32_round(pid, r2);
    lemma_skip_concat(dec, r2);
    let r3 = spec_stream_tok(t) + rest;
    lemma_expect_prefix(tok_qcolonq(), r3);
    assert(r2 =~= tok_qcolonq() + r3);
    lemma_parse_stream_round(t, rest);
    assert(spec_render_cat_entry(e).len() == 1 + dec.len() + tok_qcolonq().len()
        + spec_stream_tok(t).len());
}

/// Round trip for the category entries and their closing brace.
#[verifier::rlimit(100)]
#[verifier::spinoff_prover]
pub proof fn lemma_parse_cats_round(
    c: Seq<(u32, StreamId)>,
    acc: Seq<(u32, StreamId)>,
    rest: Seq<char>,
)
    ensures
        spec_parse_cats(spec_render_cats(c) + seq!['}'] + rest, acc) == Option::Some(
            (acc + c, spec_render_cats(c).len() as int + 1),
        ),
    decreases c.len(),
{
    lemma_tokens();
    let s = spec_render_cats(c) + seq!['}'] + rest;
    if c.len() == 0 {
        assert(s =~= seq!['}'] + rest);
        assert(s[0] == '}');
        assert(acc + c =~= acc);
    } else {
        let e = c[0];
        let entry = spec_render_cat_entry(e);
        if c.len() == 1 {
            assert(spec_render_cats(c) == entry);
            let r1 = seq!['}'] + rest;
            assert(s =~= entry + r1);
            lemma_parse_cat_entry_round(e, r1);
            let u = entry.len() as int;
            assert(s[0] == entry[0]);
            assert(entry[0] == '"');
            assert(s.len() == entry.len() + 1 + rest.len());
            lemma_skip_concat(entry, r1);
            assert(s.skip(u) == r1);
            assert(s[u] == r1[0]);
            assert(s[u] == '}');
            assert(s[u] != ',');
            assert(acc + c =~= acc.push(e));
        } else {
            let tail = c.drop_first();
            assert(spec_render_cats(c) == entry + seq![','] + spec_render_cats(tail));
            let r1 = seq![','] + (spec_render_cats(tail) + seq!['}'] + rest);
            assert(s =~= entry + r1);
            lemma_parse_cat_entry_round(e, r1);
            let u = entry.len() as int;
            assert(s[0] == entry[0]);
            assert(entry[0] == '"');
            lemma_skip_concat(entry, r1);
            assert(s.skip(u) == r1);
            assert(s[u] == r1[0]);
            assert(s[u] == ',');
            assert(u + 1 < s.len());
            assert(s.skip(u + 1) =~= spec_render_cats(tail) + seq!['}'] + rest);
            lemma_parse_cats_round(tail, acc.push(e), rest);
            assert(acc.push(e) + tail =~= acc + c);
            assert(spec_render_cats(c).len() == entry.len() + 1 + spec_render_cats(tail).len());
        }
    }
}

/// Round trip for the categories stage of the document.
#[verifier::rlimit(100)]
#[verifier::spinoff_prover]
proof fn lemma_round_stage_cats(v: StateView)
    ensures
        spec_parse_state_cats(
            tok_cats() + (spec_render_cats(v.cats) + (seq!['}'] + seq!['}'])),
            v.routes.game,
            v.routes.voice,
            v.routes.music,
            v.volumes.game,
            v.volumes.voice,
            v.volumes.music,
        ) == Option::Some(v),
{
    lemma_tokens();
    let rI: Seq<char> = seq!['}'];
    let r13 = spec_render_cats(v.cats) + seq!['}'] + rI;
    let s = tok_cats() + r13;
    assert(s =~= tok_cats() + (spec_render_cats(v.cats) + (seq!['}'] + seq!['}'])));
    lemma_expect_prefix(tok_cats(), r13);
    lemma_parse_cats_round(v.cats, Seq::empty(), rI);
    assert(Seq::<(u32, StreamId)>::empty() + v.cats =~= v.cats);
    assert(r13 =~= (spec_render_cats(v.cats) + seq!['}']) + rI);
    lemma_skip_concat(spec_render_cats(v.cats) + seq!['}'], rI);
    assert(r13.skip(spec_render_cats(v.cats).len() as int + 1) == rI);
    assert(rI.len() == 1 && rI[0] == '}');
    assert(spec_parse_state_cats(
        s,
        v.routes.game,
        v.routes.voice,
        v.routes.music,
        v.volumes.game,
        v.volumes.voice,
        v.volumes.music,
    ) == Option::Some(
        StateView {
            routes: RoutesView { game: v.routes.game, voice: v.routes.voice, music: v.routes.music },
            volumes: VolumeTable {
                game: v.volumes.game,
                voice: v.volumes.voice,
                music: v.volumes.music,
            },
            cats: v.cats,
        },
    ));
}

/// Round trip for the volumes stage of the document.
#[verifier::rlimit(100)]
#[verifier::spinoff_prover]
proof fn lemma_round_stage_vols(v: StateView)
    ensures
        spec_parse_state_vols(
            tok_vols() + (spec_dec(v.volumes.game as int) + (tok_voice() + (spec_dec(
                v.volumes.voice as int,
            ) + (tok_music() + (spec_dec(v.volumes.music as int) + (tok_cats() + (spec_render_cats(
                v.cats,
            ) + (seq!['}'] + seq!['}'])))))))),
            v.routes.game,
            v.routes.voice,
            v.routes.music,
        ) == Option::Some(v),
{
    lemma_tokens();
    let r12 = tok_cats() + (spec_render_cats(v.cats) + (seq!['}'] + seq!['}']));
    let r11 = spec_dec(v.volumes.music as int) + r12;
    let r10 = tok_music() + r11;
    let r9 = spec_dec(v.volumes.voice as int) + r10;
    let r8 = tok_voice() + r9;
    let r7 = spec_dec(v.volumes.game as int) + r8;
    let s = tok_vols() + r7;
    lemma_expect_prefix(tok_vols(), r7);
    assert(r8[0] == ',' && !spec_is_digit(r8[0]));
    lemma_parse_u32_round(v.volumes.game, r8);
    lemma_skip_concat(spec_dec(v.volumes.game as int), r8);
    lemma_expect_prefix(tok_voice(), r9);
    assert(r10[0] == ',' && !spec_is_digit(r10[0]));
    lemma_parse_u32_round(v.volumes.voice, r10);
    lemma_skip_concat(spec_dec(v.volumes.voice as int), r10);
    lemma_expect_prefix(tok_music(), r11);
    assert(r12[0] == '}' && !spec_is_digit(r12[0]));
    lemma_parse_u32_round(v.volumes.music, r12);
    lemma_skip_concat(spec_dec(v.volumes.music as int), r12);
    lemma_round_stage_cats(v);
}

/// The round-trip law: parsing the rendering of any state yields exactly
/// that state.
#[verifier::rlimit(100)]
#[verifier::spinoff_prover]
pub proof fn lemma_state_round_trip(v: StateView)
    ensures
        spec_parse_state(spec_render_state(v)) == Option::Some(v),
{
    lemma_tokens();
    let r6 = tok_vols() + (spec_dec(v.volumes.game as int) + (tok_voice() + (spec_dec(
        v.volumes.voice as int,
    ) + (tok_music() + (spec_dec(v.volumes.music as int) + (tok_cats() + (spec_render_cats(
        v.cats,
    ) + (seq!['}'] + seq!['}']))))))));
    let r5 = spec_render_route(v.routes.music) + r6;
    let r4 = tok_music() + r5;
    let r3 = spec_render_route(v.routes.voice) + r4;
    let r2 = tok_voice() + r3;
    let r1 = spec_render_route(v.routes.game) + r2;
    let s = tok_head() + r1;
    assert(s =~= spec_render_state(v));

    lemma_expect_prefix(tok_head(), r1);
    assert(r2.len() > 0 && r2[0] == ',');
    lemma_parse_route_round(v.routes.game, r2);
    lemma_skip_concat(spec_render_route(v.routes.game), r2);
    lemma_expect_prefix(tok_voice(), r3);
    assert(r4.len() > 0 && r4[0] == ',');
    lemma_parse_route_round(v.routes.voice, r4);
    lemma_skip_concat(spec_render_route(v.routes.voice), r4);
    lemma_expect_prefix(tok_music(), r5);
    assert(r6.len() > 0 && r6[0] == '}');
    lemma_parse_route_round(v.routes.music, r6);
    lemma_skip_concat(spec_render_route(v.routes.music), r6);
    lemma_round_stage_vols(v);
}

// ---------------------------------------------------------------------------
// the executable renderer
// ---------------------------------------------------------------------------
/// Append a route value: `null` or the quoted, escaped device id.
fn append_route(out: &mut String, d: &Option<String>)
    ensures
        final(out)@ == old(out)@ + spec_render_route(opt_str_view(*d)),
{
    match d {
        None => {
            out.append("null");
        },
        Some(id) => {
            append_jstring(out, id.as_str());
            proof {
                assert(old(out)@ + seq!['"'] + spec_escape(id@) + seq!['"'] =~= old(out)@
                    + spec_render_route(opt_str_view(*d)));
            }
        },
    }
}

/// Append one category entry: `"<pid>":"<stream>"`.
fn append_cat_entry(out: &mut String, e: (u32, StreamId))
    ensures
        final(out)@ == old(out)@ + spec_render_cat_entry(e),
{
    proof {
        reveal_strlit("\"");
    }
    out.append("\"");
    append_u32(out, e.0);
    out.append("\":\"");
    let name = e.1.name();
    out.append(name);
    out.append("\"");
    proof {
        assert(out@ =~= old(out)@ + spec_render_cat_entry(e));
    }
}

/// Append the category entries from position `i` on, comma-separated.
fn append_cats_from(out: &mut String, cats: &Vec<(u32, StreamId)>, i: usize)
    requires
        i <= cats@.len(),
    ensures
        final(out)@ == old(out)@ + spec_render_cats(cats@.skip(i as int)),
    decreases cats@.len() - i,
{
    proof {
        reveal_strlit(",");
    }
    if i == cats.len() {
        proof {
            assert(cats@.skip(i as int) =~= Seq::<(u32, StreamId)>::empty());
            assert(out@ =~= old(out)@ + spec_render_cats(cats@.skip(i as int)));
        }
        return ;
    }
    append_cat_entry(out, cats[i]);
    proof {
        assert(cats@.skip(i as int)[0] == cats@[i as int]);
    }
    if i + 1 == cats.len() {
        proof {
            assert(cats@.skip(i as int).len() == 1);
            assert(out@ =~= old(out)@ + spec_render_cats(cats@.skip(i as int)));
        }
        return ;
    }
    out.append(",");
    append_cats_from(out, cats, i + 1);
    proof {
        assert(cats@.skip(i as int).drop_first() =~= cats@.skip(i as int + 1));
        assert(cats@.skip(i as int).len() > 1);
        assert(out@ =~= old(out)@ + spec_render_cats(cats@.skip(i as int)));
    }
}

/// Render a state to its persisted document.
#[verifier::rlimit(100)]
#[verifier::spinoff_prover]
pub fn render_state(st: &MixerState) -> (r: String)
    ensures
        r@ == spec_render_state(st@),
{
    proof {
        reveal_strlit("}}");
    }
    let mut out = String::new();
    out.append("{\"routes\":{\"game\":");
    append_route(&mut out, &st.routes.game);
    out.append(",\"voice\":");
    append_route(&mut out, &st.routes.voice);
    out.append(",\"music\":");
    append_route(&mut out, &st.routes.music);
    out.append("},\"volumes\":{\"game\":");
    append_u32(&mut out, st.volumes.game);
    out.append(",\"voice\":");
    append_u32(&mut out, st.volumes.voice);
    out.append(",\"music\":");
    append_u32(&mut out, st.volumes.music);
    out.append("},\"app_categories\":{");
    append_cats_from(&mut out, &st.cats, 0);
    out.append("}}");
    proof {
        assert(st.cats@.skip(0) =~= st.cats@);
        assert("}}"@ =~= seq!['}'] + seq!['}']);
        assert(out@ =~= spec_render_state(st@));
    }
    out
}

// ---------------------------------------------------------------------------
// the executable parser
// ---------------------------------------------------------------------------
/// Composition of two skips.
proof fn lemma_skip_skip(s: Seq<char>, a: int, b: int)
    requires
        0 <= a,
        0 <= b,
        a + b <= s.len(),
    ensures
        s.skip(a).skip(b) == s.skip(a + b),
{
    assert(s.skip(a).skip(b) =~= s.skip(a + b));
}

/// Consume an exact token at `pos`.
fn expect_lit(input: &Vec<char>, pos: usize, tok: &str) -> (r: Option<usize>)
    requires
        pos <= input@.len(),
    ensures
        match r {
            Option::Some(p) => pos <= p <= input@.len() && p - pos == tok@.len() && spec_expect(
                input@.skip(pos as int),
                tok@,
            ) == Option::Some(tok@.len() as int),
            Option::None => spec_expect(input@.skip(pos as int), tok@) is None,
        },
{
    let n = input.len();
    let tn = tok.unicode_len();
    if tn > n - pos {
        proof {
            assert(input@.skip(pos as int).len() == n - pos);
        }
        return None;
    }
    let mut j: usize = 0;
    while j < tn
        invariant
            j <= tn,
            pos <= input@.len(),
            n == input@.len(),
            tn == tok@.len(),
            tn <= n - pos,
            forall|k: int| 0 <= k < j ==> input@[pos + k] == tok@[k],
        decreases tn - j,
    {
        let c = input[pos + j];
        if c != tok.get_char(j) {
            proof {
                let s = input@.skip(pos as int);
                if tok@.len() <= s.len() && s.subrange(0, tok@.len() as int) == tok@ {
                    assert(s.subrange(0, tok@.len() as int)[j as int] == s[j as int]);
                    assert(s[j as int] == input@[pos + j]);
                }
            }
            return None;
        }
        j = j + 1;
    }
    proof {
        let s = input@.skip(pos as int);
        assert(s.subrange(0, tn as int) =~= tok@);
    }
    Some(pos + tn)
}

/// Parse a route value at `pos`.
fn parse_route_at(input: &Vec<char>, pos: usize) -> (r: Option<(Option<String>, usize)>)
    requires
        pos <= input@.len(),
    ensures
        match r {
            Option::Some((d, p)) => pos <= p <= input@.len() && spec_parse_route(
                input@.skip(pos as int),
            ) == Option::Some((opt_str_view(d), p - pos)),
            Option::None => spec_parse_route(input@.skip(pos as int)) is None,
        },
{
    let n = input.len();
    if pos >= n {
        proof {
            assert(input@.skip(pos as int).len() == 0);
        }
        return None;
    }
    let c = input[pos];
    proof {
        assert(input@.skip(pos as int)[0] == input@[pos as int]);
    }
    if c == 'n' {
        match expect_lit(input, pos, "null") {
            Some(p) => Some((None, p)),
            None => None,
        }
    } else if c == '"' {
        proof {
            assert(input@.skip(pos as int).drop_first() =~= input@.skip(pos as int + 1));
        }
        match parse_jstring_at(input, pos + 1) {
            Some((v, p)) => Some((Some(v), p)),
            None => None,
        }
    } else {
        None
    }
}

/// Parse a stream name (with closing quote) at `pos`.
fn parse_stream_at(input: &Vec<char>, pos: usize) -> (r: Option<(StreamId, usize)>)
    requires
        pos <= input@.len(),
    ensures
        match r {
            Option::Some((t, p)) => pos <= p <= input@.len() && spec_parse_stream(
                input@.skip(pos as int),
            ) == Option::Some((t, p - pos)),
            Option::None => spec_parse_stream(input@.skip(pos as int)) is None,
        },
{
    match expect_lit(input, pos, "game\"") {
        Some(p) => {
            return Some((StreamId::Game, p));
        },
        None => {},
    }
    match expect_lit(input, pos, "voice\"") {
        Some(p) => {
            return Some((StreamId::Voice, p));
        },
        None => {},
    }
    match expect_lit(input, pos, "music\"") {
        Some(p) => {
            return Some((StreamId::Music, p));
        },
        None => {},
    }
    None
}

/// Parse one category entry at `pos`.
fn parse_cat_entry_at(input: &Vec<char>, pos: usize) -> (r: Option<((u32, StreamId), usize)>)
    requires
        pos <= input@.len(),
    ensures
        match r {
            Option::Some((e, p)) => pos <= p <= input@.len() && spec_parse_cat_entry(
                input@.skip(pos as int),
            ) == Option::Some((e, p - pos)),
            Option::None => spec_parse_cat_entry(input@.skip(pos as int)) is None,
        },
{
    proof {
        lemma_tokens();
    }
    let n = input.len();
    if pos >= n {
        proof {
            assert(input@.skip(pos as int).len() == 0);
        }
        return None;
    }
    let c = input[pos];
    proof {
        assert(input@.skip(pos as int)[0] == input@[pos as int]);
    }
    if c != '"' {
        return None;
    }
    proof {
        lemma_skip_skip(input@, pos as int, 1);
    }
    let (pid, p1) = match parse_u32_at(input, pos + 1) {
        Some(x) => x,
        None => {
            return None;
        },
    };
    proof {
        lemma_skip_skip(input@, pos as int + 1, p1 - pos - 1);
    }
    let p2 = match expect_lit(input, p1, "\":\"") {
        Some(x) => x,
        None => {
            return None;
        },
    };
    proof {
        lemma_skip_skip(input@, p1 as int, p2 - p1);
    }
    let (t, p3) = match parse_stream_at(input, p2) {
        Some(x) => x,
        None => {
            return None;
        },
    };
    Some(((pid, t), p3))
}

/// Parse the category entries (and the closing brace of their object) at
/// `pos`.
#[verifier::rlimit(60)]
fn parse_cats_at(input: &Vec<char>, pos: usize) -> (r: Option<(Vec<(u32, StreamId)>, usize)>)
    requires
        pos <= input@.len(),
    ensures
        match r {
            Option::Some((c, p)) => pos <= p <= input@.len() && spec_parse_cats(
                input@.skip(pos as int),
                Seq::empty(),
            ) == Option::Some((c@, p - pos)),
            Option::None => spec_parse_cats(input@.skip(pos as int), Seq::empty()) is None,
        },
{
    let n = input.len();
    let mut acc: Vec<(u32, StreamId)> = Vec::new();
    let mut i: usize = pos;
    loop
        invariant
            pos <= i <= n,
            n == input@.len(),
            spec_parse_cats(input@.skip(pos as int), Seq::empty()) == (match spec_parse_cats(
                input@.skip(i as int),
                acc@,
            ) {
                Option::Some((c, u)) => Option::Some((c, u + (i - pos))),
                Option::None => Option::<(Seq<(u32, StreamId)>, int)>::None,
            }),
        decreases n - i,
    {
        if i >= n {
            proof {
                assert(input@.skip(i as int).len() == 0);
            }
            return None;
        }
        let c = input[i];
        proof {
            assert(input@.skip(i as int)[0] == input@[i as int]);
        }
        if c == '}' {
            return Some((acc, i + 1));
        }
        let (e, p) = match parse_cat_entry_at(input, i) {
            Some(x) => x,
            None => {
                return None;
            },
        };
        if !(p > i && p < n) {
            return None;
        }
        proof {
            assert(input@.skip(i as int)[p - i] == input@[p as int]);
            lemma_skip_skip(input@, i as int, p - i);
        }
        let c2 = input[p];
        if c2 == ',' {
            if p + 1 < n {
                proof {
                    lemma_skip_skip(input@, i as int, p + 1 - i);
                }
                acc.push(e);
                i = p + 1;
            } else {
                return None;
            }
        } else if c2 == '}' {
            acc.push(e);
            return Some((acc, p + 1));
        } else {
            return None;
        }
    }
}

/// Parse the volumes-and-categories tail of the document at `pos`.
#[verifier::rlimit(60)]
fn parse_state_vols_at(
    input: &Vec<char>,
    pos: usize,
    rg: Option<String>,
    rv: Option<String>,
    rm: Option<String>,
) -> (r: Option<MixerState>)
    requires
        pos <= input@.len(),
    ensures
        match r {
            Option::Some(st) => spec_parse_state_vols(
                input@.skip(pos as int),
                opt_str_view(rg),
                opt_str_view(rv),
                opt_str_view(rm),
            ) == Option::Some(st@),
            Option::None => spec_parse_state_vols(
                input@.skip(pos as int),
                opt_str_view(rg),
                opt_str_view(rv),
                opt_str_view(rm),
            ) is None,
        },
{
    let p0 = match expect_lit(input, pos, "},\"volumes\":{\"game\":") {
        Some(x) => x,
        None => {
            return None;
        },
    };
    proof {
        lemma_skip_skip(input@, pos as int, p0 - pos);
    }
    let (vg, p1) = match parse_u32_at(input, p0) {
        Some(x) => x,
        None => {
            return None;
        },
    };
    proof {
        lemma_skip_skip(input@, p0 as int, p1 - p0);
    }
    let p2 = match expect_lit(input, p1, ",\"voice\":") {
        Some(x) => x,
        None => {
            return None;
        },
    };
    proof {
        lemma_skip_skip(input@, p1 as int, p2 - p1);
    }
    let (vv, p3) = match parse_u32_at(input, p2) {
        Some(x) => x,
        None => {
            return None;
        },
    };
    proof {
        lemma_skip_skip(input@, p2 as int, p3 - p2);
    }
    let p4 = match expect_lit(input, p3, ",\"music\":") {
        Some(x) => x,
        None => {
            return None;
        },
    };
    proof {
        lemma_skip_skip(input@, p3 as int, p4 - p3);
    }
    let (vm, p5) = match parse_u32_at(input, p4) {
        Some(x) => x,
        None => {
            return None;
        },
    };
    proof {
        lemma_skip_skip(input@, p4 as int, p5 - p4);
    }
    let p6 = match expect_lit(input, p5, "},\"app_categories\":{") {
        Some(x) => x,
        None => {
            return None;
        },
    };
    proof {
        lemma_skip_skip(input@, p5 as int, p6 - p5);
    }
    let (cats, p7) = match parse_cats_at(input, p6) {
        Some(x) => x,
        None => {
            return None;
        },
    };
    proof {
        lemma_skip_skip(input@, p6 as int, p7 - p6);
    }
    let n = input.len();
    if !(p7 < n && p7 + 1 == n) {
        proof {
            assert(input@.skip(p7 as int).len() == n - p7);
        }
        return None;
    }
    let cl = input[p7];
    proof {
        assert(input@.skip(p7 as int)[0] == input@[p7 as int]);
        assert(input@.skip(p7 as int).len() == 1);
    }
    if cl != '}' {
        return None;
    }
    let st = MixerState {
        routes: RouteTable { game: rg, voice: rv, music: rm },
        volumes: VolumeTable { game: vg, voice: vv, music: vm },
        cats,
    };
    Some(st)
}

/// Parse a whole persisted document.
#[verifier::rlimit(60)]
pub fn parse_state(input: &Vec<char>) -> (r: Option<MixerState>)
    ensures
        match r {
            Option::Some(st) => spec_parse_state(input@) == Option::Some(st@),
            Option::None => spec_parse_state(input@) is None,
        },
{
    proof {
        assert(input@.skip(0) =~= input@);
    }
    let p0 = match expect_lit(input, 0, "{\"routes\":{\"game\":") {
        Some(x) => x,
        None => {
            return None;
        },
    };
    proof {
        lemma_skip_skip(input@, 0, p0 as int);
    }
    let (rg, p1) = match parse_route_at(input, p0) {
        Some(x) => x,
        None => {
            return None;
        },
    };
    proof {
        lemma_skip_skip(input@, p0 as int, p1 - p0);
    }
    let p2 = match expect_lit(input, p1, ",\"voice\":") {
        Some(x) => x,
        None => {
            return None;
        },
    };
    proof {
        lemma_skip_skip(input@, p1 as int, p2 - p1);
    }
    let (rv, p3) = match parse_route_at(input, p2) {
        Some(x) => x,
        None => {
            return None;
        },
    };
    proof {
        lemma_skip_skip(input@, p2 as int, p3 - p2);
    }
    let p4 = match expect_lit(input, p3, ",\"music\":") {
        Some(x) => x,
        None => {
            return None;
        },
    };
    proof {
        lemma_skip_skip(input@, p3 as int, p4 - p3);
    }
    let (rm, p5) = match parse_route_at(input, p4) {
        Some(x) => x,
        None => {
            return None;
        },
    };
    proof {
        lemma_skip_skip(input@, p4 as int, p5 - p4);
    }
    parse_state_vols_at(input, p5, rg, rv, rm)
}

// ---------------------------------------------------------------------------
// loading
// ---------------------------------------------------------------------------
/// The state a document loads to: the parsed state where the document is
/// well-formed, the empty state otherwise (missing, corrupt or foreign file).
pub open spec fn spec_load_state(data: Option<Seq<char>>) -> StateView {
    match data {
        Option::None => StateView::empty(),
        Option::Some(t) => match spec_parse_state(t) {
            Option::Some(v) => if v.wf() {
                v
            } else {
                StateView::empty()
            },
            Option::None => StateView::empty(),
        },
    }
}

/// Chained pairwise order gives the full sorted property.
proof fn lemma_chain_lt(c: Seq<(u32, StreamId)>, i: int, j: int)
    requires
        forall|k: int| 0 <= k < c.len() - 1 ==> (#[trigger] c[k]).0 < c[k + 1].0,
        0 <= i < j < c.len(),
    ensures
        c[i].0 < c[j].0,
    decreases j - i,
{
    if j == i + 1 {
    } else {
        lemma_chain_lt(c, i, j - 1);
        assert(c[j - 1].0 < c[j].0);
    }
}

/// Whether a state is well-formed: volumes in range, categories strictly
/// sorted by pid.
fn state_wf_check(st: &MixerState) -> (r: bool)
    ensures
        r == st@.wf(),
{
    if !(st.volumes.game <= VOLUME_FULL && st.volumes.voice <= VOLUME_FULL && st.volumes.music
        <= VOLUME_FULL) {
        return false;
    }
    let n = st.cats.len();
    let mut k: usize = 0;
    while n > 0 && k < n - 1
        invariant
            n == st.cats@.len(),
            k <= n,
            forall|m: int| 0 <= m < k ==> (#[trigger] st.cats@[m]).0 < st.cats@[m + 1].0,
        decreases n - k,
    {
        if st.cats[k].0 >= st.cats[k + 1].0 {
            proof {
                assert(!cats_sorted(st.cats@)) by {
                    if cats_sorted(st.cats@) {
                        assert(st.cats@[k as int].0 < st.cats@[k as int + 1].0);
                    }
                }
            }
            return false;
        }
        k = k + 1;
    }
    proof {
        assert forall|i: int, j: int| 0 <= i < j < st.cats@.len() implies
            (#[trigger] st.cats@[i]).0 < (#[trigger] st.cats@[j]).0 by {
            lemma_chain_lt(st.cats@, i, j);
        }
    }
    true
}

/// Load the engine state from a persisted document. A missing (`None`),
/// corrupt or foreign document yields the empty state; this is not an error.
pub fn load_state(data: Option<&str>) -> (r: MixerState)
    ensures
        r.wf(),
        r@ == spec_load_state(match data {
            Option::None => Option::None,
            Option::Some(d) => Option::Some(d@),
        }),
{
    match data {
        None => MixerState::new(),
        Some(d) => {
            let chars = str_chars(d);
            match parse_state(&chars) {
                None => MixerState::new(),
                Some(st) => {
                    if state_wf_check(&st) {
                        st
                    } else {
                        MixerState::new()
                    }
                },
            }
        },
    }
}

/// The reload law: rendering a well-formed state and loading the document
/// back yields exactly that state, whatever the live session world does in
/// between.
pub proof fn lemma_persist_reload(v: StateView)
    requires
        v.wf(),
    ensures
        spec_load_state(Option::Some(spec_render_state(v))) == v,
{
    lemma_state_round_trip(v);
}

} // verus!
