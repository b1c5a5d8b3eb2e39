//! The MOTD that servers advertise, and its semicolon-delimited payload.
use vstd::prelude::*;
use vstd::string::{StrSliceExecFns, StringExecFns};

use crate::decimal::{
    decimal, decimal_signed, lemma_decimal_reads_back, lemma_parse_decimal,
    lemma_parse_decimal_signed, parse_bounded, parse_signed, parse_signed_bounded, parse_unsigned,
    push_decimal, push_decimal_signed,
};

verus! {

/// Edition of the game that a server runs.
#[derive(Clone, Debug)]
pub enum BedrockEdition {
    PocketEdition,
    EducationEdition,
    Custom(String),
}

/// Game mode of a server.
#[derive(Clone, Debug)]
pub enum GameMode {
    Survival,
    Creative,
    Custom(String),
}

/// Structured MOTD of a Bedrock server.
#[derive(Clone, Debug)]
pub struct Motd {
    /// Identifier of the server.
    pub server_uuid: i64,
    /// Edition of the game run by the server.
    pub edition: BedrockEdition,
    /// Protocol version of the server.
    pub protocol_version: u16,
    /// Display name of the server version.
    pub version_name: String,
    /// The two lines of custom text.
    pub lines: [String; 2],
    /// Online player count.
    pub player_count: usize,
    /// Maximum player count.
    pub max_player_count: usize,
    /// Game mode.
    pub gamemode: GameMode,
    /// Whether the server is limited on Nintendo consoles.
    pub nintendo_limited: bool,
    /// Server port (IPv4).
    pub port_v4: u16,
    /// Server port (IPv6).
    pub port_v6: u16,
}

/// Text of the edition, as the payload holds it.
pub open spec fn edition_text(e: BedrockEdition) -> Seq<char> {
    match e {
        BedrockEdition::PocketEdition => seq!['M', 'C', 'P', 'E'],
        BedrockEdition::EducationEdition => seq!['M', 'C', 'B', 'E'],
        BedrockEdition::Custom(s) => s@,
    }
}

/// Text of the game mode, as the payload holds it.
pub open spec fn gamemode_text(g: GameMode) -> Seq<char> {
    match g {
        GameMode::Survival => seq!['S', 'u', 'r', 'v', 'i', 'v', 'a', 'l'],
        GameMode::Creative => seq!['C', 'r', 'e', 'a', 't', 'i', 'v', 'e'],
        GameMode::Custom(s) => s@,
    }
}

/// The mathematical value of a MOTD: its texts as characters, edition and game mode as they
/// are written.
#[verifier::ext_equal]
pub struct MotdV {
    pub server_uuid: i64,
    pub edition: Seq<char>,
    pub protocol_version: u16,
    pub version_name: Seq<char>,
    pub line0: Seq<char>,
    pub line1: Seq<char>,
    pub player_count: usize,
    pub max_player_count: usize,
    pub gamemode: Seq<char>,
    pub nintendo_limited: bool,
    pub port_v4: u16,
    pub port_v6: u16,
}

impl View for Motd {
    type V = MotdV;

    open spec fn view(&self) -> MotdV {
        MotdV {
            server_uuid: self.server_uuid,
            edition: edition_text(self.edition),
            protocol_version: self.protocol_version,
            version_name: self.version_name@,
            line0: self.lines[0]@,
            line1: self.lines[1]@,
            player_count: self.player_count,
            max_player_count: self.max_player_count,
            gamemode: gamemode_text(self.gamemode),
            nintendo_limited: self.nintendo_limited,
            port_v4: self.port_v4,
            port_v6: self.port_v6,
        }
    }
}

/// The payload of a MOTD: its fields in order, each followed by a semicolon. Nintendo-limited
/// is written 0, and not limited 1.
pub open spec fn payload_of(m: MotdV) -> Seq<char> {
    payload_head(m) + payload_middle(m) + payload_tail(m)
}

/// The pieces of `s` between semicolons, as `str::split(';')` gives them.
pub open spec fn split_fields(s: Seq<char>) -> Seq<Seq<char>>
    decreases s.len(),
{
    if s.len() == 0 {
        seq![Seq::<char>::empty()]
    } else {
        let pre = split_fields(s.drop_last());
        if s.last() == ';' {
            pre.push(Seq::<char>::empty())
        } else {
            pre.drop_last().push(pre.last().push(s.last()))
        }
    }
}

pub proof fn lemma_split_nonempty(s: Seq<char>)
    ensures
        split_fields(s).len() >= 1,
    decreases s.len(),
{
    if s.len() > 0 {
        lemma_split_nonempty(s.drop_last());
    }
}

/// Field `k` of the payload, if there are that many.
pub open spec fn field(f: Seq<Seq<char>>, k: int) -> Option<Seq<char>> {
    if 0 <= k < f.len() {
        Some(f[k])
    } else {
        None
    }
}

/// A text field; missing, it is empty.
pub open spec fn text_or_empty(f: Seq<Seq<char>>, k: int) -> Seq<char> {
    match field(f, k) {
        Some(t) => t,
        None => Seq::empty(),
    }
}

/// An unsigned field of at most `max`; missing or unreadable, it is 0.
pub open spec fn number_or_zero(f: Seq<Seq<char>>, k: int, max: nat) -> nat {
    match field(f, k) {
        Some(t) => match parse_unsigned(t) {
            Some(v) => if v <= max {
                v
            } else {
                0
            },
            None => 0,
        },
        None => 0,
    }
}

/// A signed field between `-(max + 1)` and `max`; missing or unreadable, it is 0.
pub open spec fn signed_or_zero(f: Seq<Seq<char>>, k: int, max: nat) -> int {
    match field(f, k) {
        Some(t) => match parse_signed(t) {
            Some(v) => if -(max + 1) <= v <= max {
                v
            } else {
                0
            },
            None => 0,
        },
        None => 0,
    }
}

/// Whether the Nintendo-limited field reads as limited: a small integer equal to 0.
pub open spec fn limited_of(f: Seq<Seq<char>>) -> bool {
    match field(f, 9) {
        Some(t) => match parse_signed(t) {
            Some(v) => -128 <= v <= 127 && v == 0,
            None => false,
        },
        None => false,
    }
}

/// The edition named by the first field, if that field is not empty.
pub open spec fn edition_of(t: Seq<char>) -> Option<Seq<char>> {
    if t.len() == 0 {
        None
    } else {
        Some(t)
    }
}

/// The game mode field: missing, it is survival.
pub open spec fn gamemode_of(f: Seq<Seq<char>>) -> Seq<char> {
    match field(f, 8) {
        Some(t) => t,
        None => seq!['S', 'u', 'r', 'v', 'i', 'v', 'a', 'l'],
    }
}

/// Whether `m` is what the payload with fields `f` decodes to.
pub open spec fn decodes_to(f: Seq<Seq<char>>, m: Motd) -> bool {
    &&& f.len() >= 1 && f[0].len() > 0
    &&& edition_text(m.edition) == f[0]
    &&& (m.edition is Custom ==> f[0] != seq!['M', 'C', 'P', 'E'] && f[0] != seq!['M', 'C', 'B', 'E'])
    &&& m.lines[0]@ == text_or_empty(f, 1)
    &&& m.protocol_version as nat == number_or_zero(f, 2, 0xFFFF)
    &&& m.version_name@ == text_or_empty(f, 3)
    &&& m.player_count as nat == number_or_zero(f, 4, usize::MAX as nat)
    &&& m.max_player_count as nat == number_or_zero(f, 5, usize::MAX as nat)
    &&& m.server_uuid as int == signed_or_zero(f, 6, 0x7FFFFFFFFFFFFFFF)
    &&& m.lines[1]@ == text_or_empty(f, 7)
    &&& gamemode_text(m.gamemode) == gamemode_of(f)
    &&& (m.gamemode is Custom ==> gamemode_of(f) != seq!['S', 'u', 'r', 'v', 'i', 'v', 'a', 'l']
        && gamemode_of(f) != seq!['C', 'r', 'e', 'a', 't', 'i', 'v', 'e'])
    &&& m.nintendo_limited == limited_of(f)
    &&& m.port_v4 as nat == number_or_zero(f, 10, 0xFFFF)
    &&& m.port_v6 as nat == number_or_zero(f, 11, 0xFFFF)
}

/// Whether two strings hold the same characters.
fn same_text(a: &str, b: &str) -> (r: bool)
    ensures
        r == (a@ == b@),
{
    let n = a.unicode_len();
    if n != b.unicode_len() {
        return false;
    }
    let mut i: usize = 0;
    while i < n
        invariant
            i <= n,
            n == a@.len(),
            n == b@.len(),
            forall|j: int| 0 <= j < i ==> a@[j] == b@[j],
        decreases n - i,
    {
        if a.get_char(i) != b.get_char(i) {
            return false;
        }
        i = i + 1;
    }
    assert(a@ =~= b@);
    true
}

/// Splits a payload at its semicolons.
pub fn split_payload(payload: &str) -> (r: Vec<String>)
    ensures
        r@.len() == split_fields(payload@).len(),
        forall|k: int| 0 <= k < r@.len() ==> #[trigger] r@[k]@ == split_fields(payload@)[k],
{
    let n = payload.unicode_len();
    let mut fields: Vec<String> = Vec::new();
    let mut start: usize = 0;
    let mut i: usize = 0;
    while i < n
        invariant
            start <= i <= n,
            n == payload@.len(),
            fields@.len() + 1 == split_fields(payload@.take(i as int)).len(),
            forall|k: int|
                0 <= k < fields@.len() ==> #[trigger] fields@[k]@ == split_fields(
                    payload@.take(i as int),
                )[k],
            split_fields(payload@.take(i as int)).last() == payload@.subrange(
                start as int,
                i as int,
            ),
        decreases n - i,
    {
        let ghost pre = split_fields(payload@.take(i as int));
        let c = payload.get_char(i);
        proof {
            assert(payload@.take(i + 1).drop_last() =~= payload@.take(i as int));
            assert(payload@.take(i + 1).last() == c);
            lemma_split_nonempty(payload@.take(i as int));
        }
        if c == ';' {
            let piece = payload.substring_char(start, i).to_owned();
            fields.push(piece);
            start = i + 1;
            proof {
                let post = split_fields(payload@.take(i + 1));
                assert(post == pre.push(Seq::<char>::empty()));
                assert(payload@.subrange(start as int, i + 1) =~= Seq::<char>::empty());
            }
        } else {
            proof {
                let post = split_fields(payload@.take(i + 1));
                assert(post == pre.drop_last().push(pre.last().push(c)));
                assert(payload@.subrange(start as int, i + 1) =~= payload@.subrange(
                    start as int,
                    i as int,
                ).push(c));
            }
        }
        i = i + 1;
    }
    let last = payload.substring_char(start, n).to_owned();
    fields.push(last);
    proof {
        assert(payload@.take(n as int) =~= payload@);
    }
    fields
}

/// Field `k` as text; missing, it is empty.
fn text_field(fields: &Vec<String>, k: usize) -> (r: String)
    ensures
        r@ == text_or_empty(fields@.map_values(|s: String| s@), k as int),
{
    if k < fields.len() {
        fields[k].clone()
    } else {
        String::new()
    }
}

/// Field `k` read as an unsigned integer of at most `max`; otherwise 0.
fn number_field(fields: &Vec<String>, k: usize, max: u64) -> (r: u64)
    ensures
        r as nat == number_or_zero(fields@.map_values(|s: String| s@), k as int, max as nat),
{
    if k < fields.len() {
        match parse_bounded(fields[k].as_str(), max) {
            Some(v) => v,
            None => 0,
        }
    } else {
        0
    }
}

/// Field `k` read as a signed integer between `-(max + 1)` and `max`; otherwise 0.
fn signed_field(fields: &Vec<String>, k: usize, max: u64) -> (r: i128)
    requires
        max < 0x8000000000000000,
    ensures
        r as int == signed_or_zero(fields@.map_values(|s: String| s@), k as int, max as nat),
{
    if k < fields.len() {
        match parse_signed_bounded(fields[k].as_str(), max) {
            Some(v) => v,
            None => 0,
        }
    } else {
        0
    }
}

/// The edition named by the first field; `None` when that field is empty.
fn edition_field(fields: &Vec<String>) -> (r: Option<BedrockEdition>)
    requires
        fields@.len() >= 1,
    ensures
        match r {
            Some(e) => fields@[0]@.len() > 0 && edition_text(e) == fields@[0]@ && (e is Custom
                ==> fields@[0]@ != seq!['M', 'C', 'P', 'E'] && fields@[0]@ != seq!['M', 'C', 'B', 'E']),
            None => fields@[0]@.len() == 0,
        },
{
    proof {
        reveal_strlit("MCPE");
        reveal_strlit("MCBE");
    }
    let first = fields[0].as_str();
    if same_text(first, "MCPE") {
        assert(fields@[0]@ =~= seq!['M', 'C', 'P', 'E']);
        Some(BedrockEdition::PocketEdition)
    } else if same_text(first, "MCBE") {
        assert(fields@[0]@ =~= seq!['M', 'C', 'B', 'E']);
        Some(BedrockEdition::EducationEdition)
    } else if first.unicode_len() > 0 {
        assert("MCPE"@ =~= seq!['M', 'C', 'P', 'E']);
        assert("MCBE"@ =~= seq!['M', 'C', 'B', 'E']);
        Some(BedrockEdition::Custom(fields[0].clone()))
    } else {
        None
    }
}

/// The game mode field.
fn gamemode_field(fields: &Vec<String>) -> (r: GameMode)
    ensures
        gamemode_text(r) == gamemode_of(fields@.map_values(|s: String| s@)),
        r is Custom ==> gamemode_of(fields@.map_values(|s: String| s@)) != seq![
            'S',
            'u',
            'r',
            'v',
            'i',
            'v',
            'a',
            'l',
        ] && gamemode_of(fields@.map_values(|s: String| s@)) != seq![
            'C',
            'r',
            'e',
            'a',
            't',
            'i',
            'v',
            'e',
        ],
{
    proof {
        reveal_strlit("Survival");
        reveal_strlit("Creative");
        assert("Survival"@ =~= seq!['S', 'u', 'r', 'v', 'i', 'v', 'a', 'l']);
        assert("Creative"@ =~= seq!['C', 'r', 'e', 'a', 't', 'i', 'v', 'e']);
    }
    if fields.len() <= 8 {
        return GameMode::Survival;
    }
    let g = fields[8].as_str();
    if same_text(g, "Survival") {
        GameMode::Survival
    } else if same_text(g, "Creative") {
        GameMode::Creative
    } else {
        GameMode::Custom(fields[8].clone())
    }
}

/// Whether the Nintendo-limited field reads as limited.
fn limited_field(fields: &Vec<String>) -> (r: bool)
    ensures
        r == limited_of(fields@.map_values(|s: String| s@)),
{
    if fields.len() <= 9 {
        return false;
    }
    match parse_signed_bounded(fields[9].as_str(), 127) {
        Some(v) => v == 0,
        None => false,
    }
}

fn append_part(s: &mut String, t: &str)
    ensures
        final(s)@ == old(s)@ + t@ + seq![';'],
{
    proof {
        reveal_strlit(";");
    }
    s.append(t);
    s.append(";");
    assert(final(s)@ =~= old(s)@ + t@ + seq![';']);
}

fn append_number(s: &mut String, v: u64)
    ensures
        final(s)@ == old(s)@ + decimal(v as nat) + seq![';'],
{
    proof {
        reveal_strlit(";");
    }
    push_decimal(s, v);
    s.append(";");
}

/// Edition, first line, protocol version and version name, each followed by a semicolon.
pub open spec fn payload_head(m: MotdV) -> Seq<char> {
    m.edition + seq![';'] + m.line0 + seq![';'] + decimal(
        m.protocol_version as nat,
    ) + seq![';'] + m.version_name + seq![';']
}

/// Player counts, identifier and second line, each followed by a semicolon.
pub open spec fn payload_middle(m: MotdV) -> Seq<char> {
    decimal(m.player_count as nat) + seq![';'] + decimal(m.max_player_count as nat) + seq![';']
        + decimal_signed(m.server_uuid as int) + seq![';'] + m.line1 + seq![';']
}

/// Game mode, Nintendo-limited flag and ports, each followed by a semicolon.
pub open spec fn payload_tail(m: MotdV) -> Seq<char> {
    m.gamemode + seq![';'] + decimal(
        if m.nintendo_limited {
            0
        } else {
            1
        },
    ) + seq![';'] + decimal(m.port_v4 as nat) + seq![';'] + decimal(m.port_v6 as nat) + seq![';']
}

impl Motd {
    /// Decodes a payload. Missing or unreadable fields take their defaults (empty text, 0,
    /// survival, not limited); only an empty first field makes it fail.
    pub fn decode_payload(payload: &str) -> (r: Option<Motd>)
        ensures
            match r {
                Some(m) => decodes_to(split_fields(payload@), m),
                None => split_fields(payload@)[0].len() == 0,
            },
    {
        let fields = split_payload(payload);
        let ghost fv = fields@.map_values(|s: String| s@);
        assert(fv =~= split_fields(payload@));
        let edition = match edition_field(&fields) {
            Some(e) => e,
            None => {
                return None;
            },
        };
        let line_one = text_field(&fields, 1);
        let line_two = text_field(&fields, 7);
        let m = Motd {
            server_uuid: signed_field(&fields, 6, 0x7FFFFFFFFFFFFFFF) as i64,
            edition,
            protocol_version: number_field(&fields, 2, 0xFFFF) as u16,
            version_name: text_field(&fields, 3),
            lines: [line_one, line_two],
            player_count: number_field(&fields, 4, usize::MAX as u64) as usize,
            max_player_count: number_field(&fields, 5, usize::MAX as u64) as usize,
            gamemode: gamemode_field(&fields),
            nintendo_limited: limited_field(&fields),
            port_v4: number_field(&fields, 10, 0xFFFF) as u16,
            port_v6: number_field(&fields, 11, 0xFFFF) as u16,
        };
        assert(fv[0] == fields@[0]@);
        Some(m)
    }

    fn push_head(&self, s: &mut String)
        ensures
            final(s)@ == old(s)@ + payload_head(self@),
    {
        proof {
            reveal_strlit("MCPE");
            reveal_strlit("MCBE");
        }
        match &self.edition {
            BedrockEdition::PocketEdition => append_part(s, "MCPE"),
            BedrockEdition::EducationEdition => append_part(s, "MCBE"),
            BedrockEdition::Custom(e) => append_part(s, e.as_str()),
        }
        append_part(s, self.lines[0].as_str());
        append_number(s, self.protocol_version as u64);
        append_part(s, self.version_name.as_str());
        assert(final(s)@ =~= old(s)@ + payload_head(self@));
    }

    fn push_middle(&self, s: &mut String)
        ensures
            final(s)@ == old(s)@ + payload_middle(self@),
    {
        proof {
            reveal_strlit("");
        }
        append_number(s, self.player_count as u64);
        append_number(s, self.max_player_count as u64);
        push_decimal_signed(s, self.server_uuid);
        append_part(s, "");
        append_part(s, self.lines[1].as_str());
        assert(final(s)@ =~= old(s)@ + payload_middle(self@));
    }

    fn push_tail(&self, s: &mut String)
        ensures
            final(s)@ == old(s)@ + payload_tail(self@),
    {
        proof {
            reveal_strlit("Survival");
            reveal_strlit("Creative");
        }
        match &self.gamemode {
            GameMode::Survival => append_part(s, "Survival"),
            GameMode::Creative => append_part(s, "Creative"),
            GameMode::Custom(g) => append_part(s, g.as_str()),
        }
        append_number(s, if self.nintendo_limited { 0 } else { 1 });
        append_number(s, self.port_v4 as u64);
        append_number(s, self.port_v6 as u64);
        assert(final(s)@ =~= old(s)@ + payload_tail(self@));
    }

    /// Encodes the MOTD into the payload that clients read.
    pub fn encode_payload(&self) -> (r: String)
        ensures
            r@ == payload_of(self@),
    {
        let mut s = String::new();
        self.push_head(&mut s);
        self.push_middle(&mut s);
        self.push_tail(&mut s);
        assert(s@ =~= payload_of(self@));
        s
    }
}

/// The MOTD as the proxy advertises it: its own identifier and port, and a first line that is
/// never empty (clients ignore a reply with an empty title).
pub open spec fn advertised(m: MotdV, server_uuid: i64, port: u16) -> MotdV {
    MotdV {
        server_uuid,
        port_v4: port,
        port_v6: port,
        line0: if m.line0.len() == 0 {
            seq!['.', '.', '.']
        } else {
            m.line0
        },
        ..m
    }
}

fn copy_edition(e: &BedrockEdition) -> (r: BedrockEdition)
    ensures
        edition_text(r) == edition_text(*e),
{
    match e {
        BedrockEdition::PocketEdition => BedrockEdition::PocketEdition,
        BedrockEdition::EducationEdition => BedrockEdition::EducationEdition,
        BedrockEdition::Custom(s) => BedrockEdition::Custom(s.clone()),
    }
}

fn copy_gamemode(g: &GameMode) -> (r: GameMode)
    ensures
        gamemode_text(r) == gamemode_text(*g),
{
    match g {
        GameMode::Survival => GameMode::Survival,
        GameMode::Creative => GameMode::Creative,
        GameMode::Custom(s) => GameMode::Custom(s.clone()),
    }
}

/// The payload of a pong: the cached MOTD as the proxy advertises it, or nothing when no MOTD
/// is cached.
pub fn pong_payload(motd: &Option<Motd>, server_uuid: i64, port: u16) -> (r: String)
    ensures
        r@ == match motd {
            Some(m) => payload_of(advertised(m@, server_uuid, port)),
            None => Seq::<char>::empty(),
        },
{
    match motd {
        None => String::new(),
        Some(m) => {
            let first = if m.lines[0].as_str().unicode_len() == 0 {
                proof {
                    reveal_strlit("...");
                }
                let dots = String::from_str("...");
                assert(dots@ =~= seq!['.', '.', '.']);
                dots
            } else {
                m.lines[0].clone()
            };
            let adv = Motd {
                server_uuid,
                edition: copy_edition(&m.edition),
                protocol_version: m.protocol_version,
                version_name: m.version_name.clone(),
                lines: [first, m.lines[1].clone()],
                player_count: m.player_count,
                max_player_count: m.max_player_count,
                gamemode: copy_gamemode(&m.gamemode),
                nintendo_limited: m.nintendo_limited,
                port_v4: port,
                port_v6: port,
            };
            assert(adv@ =~= advertised(m@, server_uuid, port));
            adv.encode_payload()
        },
    }
}

/// Fields, each followed by a semicolon.
pub open spec fn joined(fs: Seq<Seq<char>>) -> Seq<char>
    decreases fs.len(),
{
    if fs.len() == 0 {
        Seq::empty()
    } else {
        joined(fs.drop_last()) + fs.last() + seq![';']
    }
}

proof fn lemma_split_plain(x: Seq<char>, y: Seq<char>)
    requires
        !y.contains(';'),
    ensures
        split_fields(x + y) == split_fields(x).drop_last().push(split_fields(x).last() + y),
    decreases y.len(),
{
    lemma_split_nonempty(x);
    if y.len() == 0 {
        assert(x + y =~= x);
        assert(split_fields(x).last() + y =~= split_fields(x).last());
        assert(split_fields(x).drop_last().push(split_fields(x).last()) =~= split_fields(x));
    } else {
        let y2 = y.drop_last();
        assert(!y2.contains(';')) by {
            if y2.contains(';') {
                let i = choose|i: int| 0 <= i < y2.len() && y2[i] == ';';
                assert(y[i] == ';');
            }
        }
        assert(y.last() != ';') by {
            if y.last() == ';' {
                assert(y[y.len() - 1] == ';');
            }
        }
        lemma_split_plain(x, y2);
        assert((x + y).drop_last() =~= x + y2);
        assert((x + y).last() == y.last());
        let pre = split_fields(x + y2);
        lemma_split_nonempty(x + y2);
        assert(pre.drop_last() =~= split_fields(x).drop_last());
        assert(pre.last() == split_fields(x).last() + y2);
        assert(split_fields(x).last() + y2 + seq![y.last()] =~= split_fields(x).last() + y);
        assert(pre.last().push(y.last()) =~= split_fields(x).last() + y);
    }
}

/// Splitting fields that hold no semicolon, each followed by one, gives them back, and an
/// empty piece after the last semicolon.
pub proof fn lemma_split_joined(fs: Seq<Seq<char>>)
    requires
        forall|i: int| 0 <= i < fs.len() ==> !(#[trigger] fs[i]).contains(';'),
    ensures
        split_fields(joined(fs)) == fs.push(Seq::<char>::empty()),
    decreases fs.len(),
{
    if fs.len() == 0 {
        assert(split_fields(Seq::<char>::empty()) =~= seq![Seq::<char>::empty()]);
        assert(fs.push(Seq::<char>::empty()) =~= seq![Seq::<char>::empty()]);
    } else {
        let d = fs.drop_last();
        assert forall|i: int| 0 <= i < d.len() implies !(#[trigger] d[i]).contains(';') by {
            assert(d[i] == fs[i]);
        }
        lemma_split_joined(d);
        let x = joined(d);
        let y = fs.last();
        assert(!y.contains(';')) by {
            assert(fs[fs.len() - 1] == y);
        }
        lemma_split_plain(x, y);
        let xy = x + y;
        assert(joined(fs) == xy.push(';')) by {
            assert(x + y + seq![';'] =~= xy.push(';'));
        }
        assert(xy.push(';').drop_last() =~= xy);
        assert(split_fields(x).last() =~= Seq::<char>::empty());
        assert(Seq::<char>::empty() + y =~= y);
        assert(split_fields(xy) =~= d.push(y));
        assert(d.push(y) =~= fs);
    }
}

/// Whether a MOTD survives its payload: no text holds a semicolon, the edition is not empty, and
/// custom edition and game mode texts are not those of the named ones.
pub open spec fn motd_wf(m: Motd) -> bool {
    let v = m@;
    &&& v.edition.len() > 0
    &&& !v.edition.contains(';') && !v.line0.contains(';') && !v.line1.contains(';')
    &&& !v.version_name.contains(';') && !v.gamemode.contains(';')
    &&& (m.edition is Custom ==> v.edition != seq!['M', 'C', 'P', 'E'] && v.edition != seq![
        'M',
        'C',
        'B',
        'E',
    ])
    &&& (m.gamemode is Custom ==> v.gamemode != seq!['S', 'u', 'r', 'v', 'i', 'v', 'a', 'l']
        && v.gamemode != seq!['C', 'r', 'e', 'a', 't', 'i', 'v', 'e'])
}

/// The fields of the payload of `m`, in order.
pub open spec fn payload_fields(v: MotdV) -> Seq<Seq<char>> {
    seq![
        v.edition,
        v.line0,
        decimal(v.protocol_version as nat),
        v.version_name,
        decimal(v.player_count as nat),
        decimal(v.max_player_count as nat),
        decimal_signed(v.server_uuid as int),
        v.line1,
        v.gamemode,
        decimal(if v.nintendo_limited { 0 } else { 1 }),
        decimal(v.port_v4 as nat),
        decimal(v.port_v6 as nat),
    ]
}

/// A well formed MOTD decodes from its own payload to the same MOTD.
#[verifier::rlimit(100)]
pub proof fn lemma_motd_round_trip(m: Motd)
    requires
        motd_wf(m),
    ensures
        decodes_to(split_fields(payload_of(m@)), m),
{
    let v = m@;
    let fs = payload_fields(v);
    reveal_with_fuel(joined, 13);
    assert(payload_of(v) =~= joined(fs));
    lemma_decimal_reads_back(v.protocol_version as nat);
    lemma_decimal_reads_back(v.player_count as nat);
    lemma_decimal_reads_back(v.max_player_count as nat);
    lemma_decimal_reads_back(if v.nintendo_limited { 0 } else { 1 });
    lemma_decimal_reads_back(v.port_v4 as nat);
    lemma_decimal_reads_back(v.port_v6 as nat);
    lemma_parse_decimal_signed(v.server_uuid as int);
    lemma_parse_decimal(v.protocol_version as nat);
    lemma_parse_decimal(v.player_count as nat);
    lemma_parse_decimal(v.max_player_count as nat);
    lemma_parse_decimal(if v.nintendo_limited { 0 } else { 1 });
    lemma_parse_decimal(v.port_v4 as nat);
    lemma_parse_decimal(v.port_v6 as nat);
    assert forall|i: int| 0 <= i < fs.len() implies !(#[trigger] fs[i]).contains(';') by {}
    lemma_split_joined(fs);
    let f = fs.push(Seq::<char>::empty());
    assert(split_fields(payload_of(v)) == f);
    assert(f[0] == v.edition && f[1] == v.line0 && f[3] == v.version_name && f[7] == v.line1 && f[8] == v.gamemode);
    assert(f[2] == decimal(v.protocol_version as nat));
    assert(f[4] == decimal(v.player_count as nat));
    assert(f[5] == decimal(v.max_player_count as nat));
    assert(f[6] == decimal_signed(v.server_uuid as int));
    assert(f[9] == decimal(if v.nintendo_limited { 0 } else { 1 }));
    assert(f[10] == decimal(v.port_v4 as nat));
    assert(f[11] == decimal(v.port_v6 as nat));
}

} // verus!
