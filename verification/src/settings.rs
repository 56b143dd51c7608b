//! What the window remembers from one run to the next, as a JSON text.

use vstd::prelude::*;
use vstd::string::*;

use crate::text::{
    chars_of,
    decimal,
    digits_value,
    is_digit,
    lemma_decimal,
    push_decimal,
};

verus! {

/// What the window remembers.
#[derive(Debug)]
pub struct Settings {
    pub target_name: String,
    pub target_ip: String,
    pub port: u16,
    pub streams: u8,
    pub checksum: bool,
    pub compress: bool,
    pub overwrite: bool,
    pub out_dir: String,
    pub recv_port: u16,
    pub recv_overwrite: bool,
}

/// What the window remembers, with its texts as characters.
pub struct SettingsView {
    pub target_name: Seq<char>,
    pub target_ip: Seq<char>,
    pub port: u16,
    pub streams: u8,
    pub checksum: bool,
    pub compress: bool,
    pub overwrite: bool,
    pub out_dir: Seq<char>,
    pub recv_port: u16,
    pub recv_overwrite: bool,
}

impl View for Settings {
    type V = SettingsView;

    open spec fn view(&self) -> SettingsView {
        SettingsView {
            target_name: self.target_name@,
            target_ip: self.target_ip@,
            port: self.port,
            streams: self.streams,
            checksum: self.checksum,
            compress: self.compress,
            overwrite: self.overwrite,
            out_dir: self.out_dir@,
            recv_port: self.recv_port,
            recv_overwrite: self.recv_overwrite,
        }
    }
}

// ---------------------------------------------------------------------------
// Writing
// ---------------------------------------------------------------------------

/// A hexadecimal digit.
pub open spec fn hex_char(d: nat) -> char {
    if d < 10 {
        (48 + d) as char
    } else {
        (87 + d) as char
    }
}

/// A character within a JSON string.
pub open spec fn escape_one(c: char) -> Seq<char> {
    if c == '"' {
        seq!['\\', '"']
    } else if c == '\\' {
        seq!['\\', '\\']
    } else if (c as u32) < 0x20 {
        seq!['\\', 'u', '0', '0', hex_char((c as u32) as nat / 16), hex_char((c as u32) as nat % 16)]
    } else {
        seq![c]
    }
}

/// A text within a JSON string.
pub open spec fn escaped(s: Seq<char>) -> Seq<char>
    decreases s.len(),
{
    if s.len() == 0 {
        Seq::empty()
    } else {
        escape_one(s[0]) + escaped(s.drop_first())
    }
}

/// A JSON string.
pub open spec fn quoted(s: Seq<char>) -> Seq<char> {
    seq!['"'] + escaped(s) + seq!['"']
}

/// A JSON truth value.
pub open spec fn truth(b: bool) -> Seq<char> {
    if b {
        "true"@
    } else {
        "false"@
    }
}

/// A member of a JSON object, with what follows it.
pub open spec fn member(name: Seq<char>, value: Seq<char>, rest: Seq<char>) -> Seq<char> {
    name + (value + rest)
}

/// The settings as a JSON text, from the member with this number on.
pub open spec fn settings_from(s: SettingsView, k: nat) -> Seq<char>
    decreases 10 - k,
{
    if k >= 10 {
        "}"@
    } else if k == 0 {
        member("{\"target_name\":"@, quoted(s.target_name), settings_from(s, k + 1))
    } else if k == 1 {
        member(",\"target_ip\":"@, quoted(s.target_ip), settings_from(s, k + 1))
    } else if k == 2 {
        member(",\"port\":"@, decimal(s.port as nat), settings_from(s, k + 1))
    } else if k == 3 {
        member(",\"streams\":"@, decimal(s.streams as nat), settings_from(s, k + 1))
    } else if k == 4 {
        member(",\"checksum\":"@, truth(s.checksum), settings_from(s, k + 1))
    } else if k == 5 {
        member(",\"compress\":"@, truth(s.compress), settings_from(s, k + 1))
    } else if k == 6 {
        member(",\"overwrite\":"@, truth(s.overwrite), settings_from(s, k + 1))
    } else if k == 7 {
        member(",\"out_dir\":"@, quoted(s.out_dir), settings_from(s, k + 1))
    } else if k == 8 {
        member(",\"recv_port\":"@, decimal(s.recv_port as nat), settings_from(s, k + 1))
    } else {
        member(",\"recv_overwrite\":"@, truth(s.recv_overwrite), settings_from(s, k + 1))
    }
}

/// The settings as a JSON text.
pub open spec fn settings_words(s: SettingsView) -> Seq<char> {
    settings_from(s, 0)
}

fn hex_digit(d: u8) -> (c: char)
    requires
        d < 16,
    ensures
        c == hex_char(d as nat),
{
    if d < 10 {
        (48 + d) as char
    } else {
        (87 + d) as char
    }
}

proof fn lemma_escaped_push(s: Seq<char>, c: char)
    ensures
        escaped(s.push(c)) == escaped(s) + escape_one(c),
    decreases s.len(),
{
    if s.len() == 0 {
        assert(s.push(c).drop_first() =~= Seq::empty());
        assert(escaped(Seq::<char>::empty()) =~= Seq::empty());
        assert(escaped(s.push(c)) =~= escape_one(c));
        assert(escaped(s) + escape_one(c) =~= escape_one(c));
    } else {
        lemma_escaped_push(s.drop_first(), c);
        assert(s.push(c).drop_first() =~= s.drop_first().push(c));
        assert(escaped(s.push(c)) =~= escaped(s) + escape_one(c));
    }
}

fn push_quoted(out: &mut String, s: &str)
    ensures
        final(out)@ == old(out)@ + quoted(s@),
{
    let v: Vec<char> = chars_of(s);
    out.push('"');
    let ghost head = out@;
    let mut i: usize = 0;
    assert(v@.take(0) =~= Seq::empty());
    assert(head + escaped(v@.take(0)) =~= head);
    while i < v.len()
        invariant
            i <= v@.len(),
            out@ == head + escaped(v@.take(i as int)),
        decreases v@.len() - i,
    {
        let c: char = v[i];
        let ghost before = out@;
        proof {
            lemma_escaped_push(v@.take(i as int), c);
            assert(v@.take(i + 1) =~= v@.take(i as int).push(c));
        }
        if c == '"' || c == '\\' {
            out.push('\\');
            out.push(c);
        } else if (c as u32) < 0x20 {
            let u: u8 = (c as u32) as u8;
            out.push('\\');
            out.push('u');
            out.push('0');
            out.push('0');
            out.push(hex_digit(u / 16));
            out.push(hex_digit(u % 16));
        } else {
            out.push(c);
        }
        assert(out@ =~= before + escape_one(c));
        assert(out@ =~= head + escaped(v@.take(i + 1)));
        i = i + 1;
    }
    assert(v@.take(i as int) =~= s@);
    out.push('"');
    assert(out@ =~= old(out)@ + quoted(s@));
}

fn push_truth(out: &mut String, b: bool)
    ensures
        final(out)@ == old(out)@ + truth(b),
{
    if b {
        out.append("true");
    } else {
        out.append("false");
    }
}

proof fn lemma_member(r0: Seq<char>, name: Seq<char>, value: Seq<char>, rest: Seq<char>)
    ensures
        ((r0 + name) + value) + rest == r0 + member(name, value, rest),
{
    assert(((r0 + name) + value) + rest =~= r0 + member(name, value, rest));
}

impl Settings {
    /// The settings as a JSON text.
    pub fn to_json(&self) -> (r: String)
        ensures
            r@ == settings_words(self@),
    {
        let ghost s = self@;
        let ghost all = settings_words(s);
        let mut r = String::new();
        assert(r@ + settings_from(s, 0) =~= all);
        let ghost r0 = r@;
        r.append("{\"target_name\":");
        push_quoted(&mut r, self.target_name.as_str());
        proof {
            lemma_member(r0, "{\"target_name\":"@, quoted(s.target_name), settings_from(s, 1));
        }
        let ghost r0 = r@;
        r.append(",\"target_ip\":");
        push_quoted(&mut r, self.target_ip.as_str());
        proof {
            lemma_member(r0, ",\"target_ip\":"@, quoted(s.target_ip), settings_from(s, 2));
        }
        let ghost r0 = r@;
        r.append(",\"port\":");
        push_decimal(&mut r, self.port as u64);
        proof {
            lemma_member(r0, ",\"port\":"@, decimal(s.port as nat), settings_from(s, 3));
        }
        let ghost r0 = r@;
        r.append(",\"streams\":");
        push_decimal(&mut r, self.streams as u64);
        proof {
            lemma_member(r0, ",\"streams\":"@, decimal(s.streams as nat), settings_from(s, 4));
        }
        let ghost r0 = r@;
        r.append(",\"checksum\":");
        push_truth(&mut r, self.checksum);
        proof {
            lemma_member(r0, ",\"checksum\":"@, truth(s.checksum), settings_from(s, 5));
        }
        let ghost r0 = r@;
        r.append(",\"compress\":");
        push_truth(&mut r, self.compress);
        proof {
            lemma_member(r0, ",\"compress\":"@, truth(s.compress), settings_from(s, 6));
        }
        let ghost r0 = r@;
        r.append(",\"overwrite\":");
        push_truth(&mut r, self.overwrite);
        proof {
            lemma_member(r0, ",\"overwrite\":"@, truth(s.overwrite), settings_from(s, 7));
        }
        let ghost r0 = r@;
        r.append(",\"out_dir\":");
        push_quoted(&mut r, self.out_dir.as_str());
        proof {
            lemma_member(r0, ",\"out_dir\":"@, quoted(s.out_dir), settings_from(s, 8));
        }
        let ghost r0 = r@;
        r.append(",\"recv_port\":");
        push_decimal(&mut r, self.recv_port as u64);
        proof {
            lemma_member(r0, ",\"recv_port\":"@, decimal(s.recv_port as nat), settings_from(s, 9));
        }
        let ghost r0 = r@;
        r.append(",\"recv_overwrite\":");
        push_truth(&mut r, self.recv_overwrite);
        proof {
            lemma_member(r0, ",\"recv_overwrite\":"@, truth(s.recv_overwrite), settings_from(s, 10));
        }
        r.append("}");
        assert(r@ =~= all);
        r
    }
}

// ---------------------------------------------------------------------------
// Reading
// ---------------------------------------------------------------------------

/// What follows `lit` in a text that starts with it.
pub open spec fn after_literal(s: Seq<char>, lit: Seq<char>) -> Option<Seq<char>> {
    if lit.is_prefix_of(s) {
        Some(s.skip(lit.len() as int))
    } else {
        None
    }
}

/// The value of a hexadecimal digit.
pub open spec fn hex_value(c: char) -> Option<nat> {
    let u = c as u32;
    if 48 <= u <= 57 {
        Some((u - 48) as nat)
    } else if 97 <= u <= 102 {
        Some((u - 87) as nat)
    } else {
        None
    }
}

/// The first character that a text within a JSON string stands for, and how many
/// characters it takes up.
pub open spec fn one_char(s: Seq<char>) -> Option<(char, nat)> {
    if s.len() == 0 {
        None
    } else if s[0] != '\\' {
        Some((s[0], 1))
    } else if s.len() >= 2 && (s[1] == '"' || s[1] == '\\') {
        Some((s[1], 2))
    } else if s.len() >= 6 && s[1] == 'u' && s[2] == '0' && s[3] == '0' && hex_value(s[4]) is Some
        && hex_value(s[5]) is Some {
        Some(((16 * hex_value(s[4])->0 + hex_value(s[5])->0) as char, 6))
    } else {
        None
    }
}

/// The rest of a JSON string behind its opening quote: what it stands for, and
/// what follows it.
pub open spec fn string_rest(s: Seq<char>) -> Option<(Seq<char>, Seq<char>)>
    decreases s.len(),
{
    if s.len() > 0 && s[0] == '"' {
        Some((Seq::empty(), s.drop_first()))
    } else {
        match one_char(s) {
            None => None,
            Some((c, n)) => match string_rest(s.skip(n as int)) {
                None => None,
                Some((t, rest)) => Some((seq![c] + t, rest)),
            },
        }
    }
}

/// A JSON string, and what follows it.
pub open spec fn read_string(s: Seq<char>) -> Option<(Seq<char>, Seq<char>)> {
    if s.len() > 0 && s[0] == '"' {
        string_rest(s.drop_first())
    } else {
        None
    }
}

/// How many digits a text starts with.
pub open spec fn digit_run(s: Seq<char>) -> nat
    decreases s.len(),
{
    if s.len() > 0 && is_digit(s[0]) {
        1 + digit_run(s.drop_first())
    } else {
        0
    }
}

/// A number up to `max`, and what follows it.
pub open spec fn read_number(s: Seq<char>, max: nat) -> Option<(nat, Seq<char>)> {
    let n = digit_run(s);
    let v = digits_value(s.take(n as int));
    if n > 0 && v <= max {
        Some((v, s.skip(n as int)))
    } else {
        None
    }
}

/// A truth value, and what follows it.
pub open spec fn read_truth(s: Seq<char>) -> Option<(bool, Seq<char>)> {
    match after_literal(s, "true"@) {
        Some(rest) => Some((true, rest)),
        None => match after_literal(s, "false"@) {
            Some(rest) => Some((false, rest)),
            None => None,
        },
    }
}

/// The settings that a JSON text holds, in the form in which they are written;
/// `None` for any other text.
pub open spec fn settings_in(text: Seq<char>) -> Option<SettingsView> {
    match text_member(text, "{\"target_name\":"@) {
        None => None,
        Some((target_name, s1)) => match text_member(s1, ",\"target_ip\":"@) {
            None => None,
            Some((target_ip, s2)) => match number_member(s2, ",\"port\":"@, 0xFFFF) {
                None => None,
                Some((port, s3)) => match number_member(s3, ",\"streams\":"@, 0xFF) {
                    None => None,
                    Some((streams, s4)) => match options_in(s4) {
                        None => None,
                        Some((checksum, compress, overwrite, s5)) => match receive_in(s5) {
                            None => None,
                            Some((out_dir, recv_port, recv_overwrite)) => Some(
                                SettingsView {
                                    target_name,
                                    target_ip,
                                    port: port as u16,
                                    streams: streams as u8,
                                    checksum,
                                    compress,
                                    overwrite,
                                    out_dir,
                                    recv_port: recv_port as u16,
                                    recv_overwrite,
                                },
                            ),
                        },
                    },
                },
            },
        },
    }
}

/// A member whose value is a string, and what follows it.
pub open spec fn text_member(s: Seq<char>, name: Seq<char>) -> Option<(Seq<char>, Seq<char>)> {
    match after_literal(s, name) {
        Some(rest) => read_string(rest),
        None => None,
    }
}

/// A member whose value is a number up to `max`, and what follows it.
pub open spec fn number_member(s: Seq<char>, name: Seq<char>, max: nat) -> Option<
    (nat, Seq<char>),
> {
    match after_literal(s, name) {
        Some(rest) => read_number(rest, max),
        None => None,
    }
}

/// A member whose value is a truth value, and what follows it.
pub open spec fn truth_member(s: Seq<char>, name: Seq<char>) -> Option<(bool, Seq<char>)> {
    match after_literal(s, name) {
        Some(rest) => read_truth(rest),
        None => None,
    }
}

/// The options of sending, and what follows them.
pub open spec fn options_in(s: Seq<char>) -> Option<(bool, bool, bool, Seq<char>)> {
    match truth_member(s, ",\"checksum\":"@) {
        None => None,
        Some((checksum, s1)) => match truth_member(s1, ",\"compress\":"@) {
            None => None,
            Some((compress, s2)) => match truth_member(s2, ",\"overwrite\":"@) {
                None => None,
                Some((overwrite, s3)) => Some((checksum, compress, overwrite, s3)),
            },
        },
    }
}

/// The settings of receiving, up to the end of the text.
pub open spec fn receive_in(s: Seq<char>) -> Option<(Seq<char>, nat, bool)> {
    match text_member(s, ",\"out_dir\":"@) {
        None => None,
        Some((out_dir, s1)) => match number_member(s1, ",\"recv_port\":"@, 0xFFFF) {
            None => None,
            Some((recv_port, s2)) => match truth_member(s2, ",\"recv_overwrite\":"@) {
                None => None,
                Some((recv_overwrite, s3)) => if s3 == "}"@ {
                    Some((out_dir, recv_port, recv_overwrite))
                } else {
                    None
                },
            },
        },
    }
}

/// A place in a text that is being read.
struct Reader {
    text: Vec<char>,
    pos: usize,
}

impl Reader {
    closed spec fn rest(self) -> Seq<char> {
        self.text@.skip(self.pos as int)
    }

    closed spec fn wf(self) -> bool {
        self.pos <= self.text@.len()
    }

    fn literal(&mut self, lit: &str) -> (r: bool)
        requires
            old(self).wf(),
        ensures
            final(self).wf(),
            match after_literal(old(self).rest(), lit@) {
                Some(rest) => r && final(self).rest() == rest,
                None => !r && final(self).rest() == old(self).rest(),
            },
    {
        let v: Vec<char> = chars_of(lit);
        let ghost here = self.rest();
        let total: usize = self.text.len();
        if v.len() > total - self.pos {
            return false;
        }
        let mut i: usize = 0;
        while i < v.len()
            invariant
                i <= v@.len(),
                v@ == lit@,
                self.wf(),
                *self == *old(self),
                here == self.rest(),
                total == self.text@.len(),
                self.pos + v@.len() <= total,
                forall|j: int| 0 <= j < i ==> here[j] == v@[j],
            decreases v@.len() - i,
        {
            assert(here[i as int] == self.text@[self.pos + i]);
            if self.text[self.pos + i] != v[i] {
                return false;
            }
            i = i + 1;
        }
        assert(lit@ =~= here.take(lit@.len() as int));
        self.pos = self.pos + v.len();
        assert(self.rest() =~= here.skip(lit@.len() as int));
        true
    }

    fn string(&mut self) -> (r: Option<String>)
        requires
            old(self).wf(),
        ensures
            final(self).wf(),
            match read_string(old(self).rest()) {
                Some((t, rest)) => (r matches Some(s) && s@ == t) && final(self).rest() == rest,
                None => r is None,
            },
    {
        if self.pos >= self.text.len() || self.text[self.pos] != '"' {
            return None;
        }
        let ghost s0 = self.rest().drop_first();
        assert(self.rest()[0] == '"');
        self.pos = self.pos + 1;
        assert(self.rest() =~= s0);
        let mut out = String::new();
        loop
            invariant
                self.wf(),
                read_string(old(self).rest()) == string_rest(s0),
                string_rest(s0) == match string_rest(self.rest()) {
                    Some((t, rest)) => Some((out@ + t, rest)),
                    None => None,
                },
            decreases self.text@.len() - self.pos,
        {
            let total: usize = self.text.len();
            let ghost here = self.rest();
            if self.pos >= total {
                return None;
            }
            let c: char = self.text[self.pos];
            assert(here[0] == c);
            if c == '"' {
                self.pos = self.pos + 1;
                proof {
                    assert(self.rest() =~= here.drop_first());
                    assert(out@ + Seq::<char>::empty() =~= out@);
                }
                return Some(out);
            }
            let left: usize = total - self.pos;
            assert(forall|k: int| 0 <= k < left ==> here[k] == self.text@[self.pos + k]);
            let mut ch: char = c;
            let mut used: usize = 1;
            if c == '\\' {
                if left >= 2 && (self.text[self.pos + 1] == '"' || self.text[self.pos + 1]
                    == '\\') {
                    ch = self.text[self.pos + 1];
                    used = 2;
                } else if left >= 6 && self.text[self.pos + 1] == 'u' && self.text[self.pos + 2]
                    == '0' && self.text[self.pos + 3] == '0' {
                    match (hex_of(self.text[self.pos + 4]), hex_of(self.text[self.pos + 5])) {
                        (Some(h), Some(l)) => {
                            ch = (16 * h + l) as char;
                            used = 6;
                        },
                        _ => {
                            return None;
                        },
                    }
                } else {
                    return None;
                }
            }
            let ghost before = out@;
            assert(one_char(here) == Some((ch, used as nat)));
            out.push(ch);
            self.pos = self.pos + used;
            proof {
                assert(self.rest() =~= here.skip(used as int));
                if let Some((t, rest)) = string_rest(self.rest()) {
                    assert(before + (seq![ch] + t) =~= out@ + t);
                }
            }
        }
    }

    fn at_digit(&self) -> (r: bool)
        requires
            self.wf(),
        ensures
            r == (self.rest().len() > 0 && is_digit(self.rest()[0])),
    {
        if self.pos >= self.text.len() {
            return false;
        }
        let u: u32 = self.text[self.pos] as u32;
        assert(self.rest()[0] == self.text@[self.pos as int]);
        48 <= u && u <= 57
    }

    fn number(&mut self, max: u64) -> (r: Option<u64>)
        requires
            old(self).wf(),
            max <= 0xFFFF_FFFF,
        ensures
            final(self).wf(),
            match read_number(old(self).rest(), max as nat) {
                Some((v, rest)) => (r matches Some(n) && n == v) && final(self).rest() == rest,
                None => r is None,
            },
    {
        let start: usize = self.pos;
        let ghost here = self.rest();
        let mut value: u64 = 0;
        let mut small: bool = true;
        assert(here.take(0) =~= Seq::empty());
        while self.at_digit()
            invariant
                self.wf(),
                start <= self.pos,
                self.text@ == old(self).text@,
                start == old(self).pos,
                here == old(self).rest(),
                max <= 0xFFFF_FFFF,
                digit_run(here) == (self.pos - start) + digit_run(self.rest()),
                small ==> value == digits_value(here.take(self.pos - start)) && value <= max,
                !small ==> digits_value(here.take(self.pos - start)) > max,
            decreases self.text@.len() - self.pos,
        {
            let c: char = self.text[self.pos];
            proof {
                assert(self.rest()[0] == c);
                assert(self.rest().drop_first() =~= self.text@.skip(self.pos + 1));
                let t = here.take(self.pos - start + 1);
                assert(t.drop_last() =~= here.take(self.pos - start));
                assert(t.last() == c);
            }
            let total: usize = self.text.len();
            assert(self.pos < total);
            let d: u64 = ((c as u32) - 48) as u64;
            if small {
                value = value * 10 + d;
                if value > max {
                    small = false;
                }
            }
            self.pos = self.pos + 1;
        }
        proof {
            assert(digit_run(self.rest()) == 0);
            assert(here.skip(self.pos - start) =~= self.rest());
        }
        if self.pos == start || !small {
            return None;
        }
        Some(value)
    }

    fn truth(&mut self) -> (r: Option<bool>)
        requires
            old(self).wf(),
        ensures
            final(self).wf(),
            match read_truth(old(self).rest()) {
                Some((b, rest)) => r == Some(b) && final(self).rest() == rest,
                None => r is None,
            },
    {
        if self.literal("true") {
            return Some(true);
        }
        if self.literal("false") {
            return Some(false);
        }
        None
    }

    fn text_of(&mut self, name: &str) -> (r: Option<String>)
        requires
            old(self).wf(),
        ensures
            final(self).wf(),
            match text_member(old(self).rest(), name@) {
                Some((t, rest)) => (r matches Some(s) && s@ == t) && final(self).rest() == rest,
                None => r is None,
            },
    {
        if self.literal(name) {
            self.string()
        } else {
            None
        }
    }

    fn number_of(&mut self, name: &str, max: u64) -> (r: Option<u64>)
        requires
            old(self).wf(),
            max <= 0xFFFF_FFFF,
        ensures
            final(self).wf(),
            match number_member(old(self).rest(), name@, max as nat) {
                Some((v, rest)) => (r matches Some(n) && n == v && n <= max) && final(self).rest()
                    == rest,
                None => r is None,
            },
    {
        if self.literal(name) {
            self.number(max)
        } else {
            None
        }
    }

    fn truth_of(&mut self, name: &str) -> (r: Option<bool>)
        requires
            old(self).wf(),
        ensures
            final(self).wf(),
            match truth_member(old(self).rest(), name@) {
                Some((b, rest)) => r == Some(b) && final(self).rest() == rest,
                None => r is None,
            },
    {
        if self.literal(name) {
            self.truth()
        } else {
            None
        }
    }

    fn options(&mut self) -> (r: Option<(bool, bool, bool)>)
        requires
            old(self).wf(),
        ensures
            final(self).wf(),
            match options_in(old(self).rest()) {
                Some((a, b, c, rest)) => r == Some((a, b, c)) && final(self).rest() == rest,
                None => r is None,
            },
    {
        let checksum: bool = match self.truth_of(",\"checksum\":") {
            Some(b) => b,
            None => {
                return None;
            },
        };
        let compress: bool = match self.truth_of(",\"compress\":") {
            Some(b) => b,
            None => {
                return None;
            },
        };
        match self.truth_of(",\"overwrite\":") {
            Some(overwrite) => Some((checksum, compress, overwrite)),
            None => None,
        }
    }

    fn receive(&mut self) -> (r: Option<(String, u16, bool)>)
        requires
            old(self).wf(),
        ensures
            match receive_in(old(self).rest()) {
                Some((dir, port, over)) => r matches Some((d, p, o)) && d@ == dir && p == port && o
                    == over,
                None => r is None,
            },
    {
        let out_dir: String = match self.text_of(",\"out_dir\":") {
            Some(t) => t,
            None => {
                return None;
            },
        };
        let recv_port: u64 = match self.number_of(",\"recv_port\":", 0xFFFF) {
            Some(n) => n,
            None => {
                return None;
            },
        };
        let recv_overwrite: bool = match self.truth_of(",\"recv_overwrite\":") {
            Some(b) => b,
            None => {
                return None;
            },
        };
        let ghost here = self.rest();
        if !self.literal("}") || self.pos != self.text.len() {
            proof {
                if here == "}"@ {
                    assert("}"@ =~= here.take("}"@.len() as int));
                    assert(here.skip("}"@.len() as int) =~= Seq::empty());
                    assert(self.rest().len() == 0);
                }
            }
            return None;
        }
        proof {
            assert(here.skip("}"@.len() as int) == self.rest());
            assert(here =~= "}"@ + self.rest());
            assert(self.rest() =~= Seq::empty());
            assert(here =~= "}"@);
        }
        Some((out_dir, recv_port as u16, recv_overwrite))
    }
}

fn hex_of(c: char) -> (r: Option<u8>)
    ensures
        r is Some <==> hex_value(c) is Some,
        r matches Some(d) ==> d == hex_value(c)->0 && d < 16,
{
    let u: u32 = c as u32;
    if 48 <= u && u <= 57 {
        Some((u - 48) as u8)
    } else if 97 <= u && u <= 102 {
        Some((u - 87) as u8)
    } else {
        None
    }
}

impl Settings {
    /// The settings that a JSON text holds, in the form in which they are
    /// written; `None` for any other text.
    pub fn from_json(text: &str) -> (r: Option<Settings>)
        ensures
            match settings_in(text@) {
                Some(v) => r matches Some(s) && s@ == v,
                None => r is None,
            },
    {
        let mut rd = Reader { text: chars_of(text), pos: 0 };
        assert(rd.rest() =~= text@);
        let target_name: String = match rd.text_of("{\"target_name\":") {
            Some(t) => t,
            None => {
                return None;
            },
        };
        let target_ip: String = match rd.text_of(",\"target_ip\":") {
            Some(t) => t,
            None => {
                return None;
            },
        };
        let port: u64 = match rd.number_of(",\"port\":", 0xFFFF) {
            Some(n) => n,
            None => {
                return None;
            },
        };
        let streams: u64 = match rd.number_of(",\"streams\":", 0xFF) {
            Some(n) => n,
            None => {
                return None;
            },
        };
        let (checksum, compress, overwrite): (bool, bool, bool) = match rd.options() {
            Some(o) => o,
            None => {
                return None;
            },
        };
        match rd.receive() {
            Some((out_dir, recv_port, recv_overwrite)) => Some(
                Settings {
                    target_name,
                    target_ip,
                    port: port as u16,
                    streams: streams as u8,
                    checksum,
                    compress,
                    overwrite,
                    out_dir,
                    recv_port,
                    recv_overwrite,
                },
            ),
            None => None,
        }
    }
}

// ---------------------------------------------------------------------------
// What is read of what was written
// ---------------------------------------------------------------------------

proof fn lemma_literal(lit: Seq<char>, rest: Seq<char>)
    ensures
        after_literal(lit + rest, lit) == Some(rest),
{
    assert((lit + rest).take(lit.len() as int) =~= lit);
    assert((lit + rest).skip(lit.len() as int) =~= rest);
}

proof fn lemma_hex(d: nat)
    requires
        d < 16,
    ensures
        hex_value(hex_char(d)) == Some(d),
{
}

proof fn lemma_one_char(c: char, rest: Seq<char>)
    ensures
        one_char(escape_one(c) + rest) == Some((c, escape_one(c).len())),
        (escape_one(c) + rest).skip(escape_one(c).len() as int) == rest,
        (escape_one(c) + rest)[0] != '"',
{
    let u = (c as u32) as nat;
    if c != '"' && c != '\\' && (c as u32) < 0x20 {
        lemma_hex(u / 16);
        lemma_hex(u % 16);
        vstd::utf8::char_u32_cast(c, c as u32);
    }
    assert((escape_one(c) + rest).skip(escape_one(c).len() as int) =~= rest);
}

proof fn lemma_string_rest(s: Seq<char>, rest: Seq<char>)
    ensures
        string_rest(escaped(s) + (seq!['"'] + rest)) == Some((s, rest)),
    decreases s.len(),
{
    let tail = seq!['"'] + rest;
    if s.len() == 0 {
        assert(escaped(s) + tail =~= tail);
        assert(tail.drop_first() =~= rest);
        assert(s =~= Seq::empty());
    } else {
        let c = s[0];
        let after = escaped(s.drop_first()) + tail;
        assert(escaped(s) + tail =~= escape_one(c) + after);
        lemma_one_char(c, after);
        lemma_string_rest(s.drop_first(), rest);
        assert(seq![c] + s.drop_first() =~= s);
    }
}

proof fn lemma_text_member(name: Seq<char>, s: Seq<char>, rest: Seq<char>)
    ensures
        text_member(member(name, quoted(s), rest), name) == Some((s, rest)),
{
    lemma_literal(name, quoted(s) + rest);
    let all = quoted(s) + rest;
    assert(all.drop_first() =~= escaped(s) + (seq!['"'] + rest));
    lemma_string_rest(s, rest);
}

proof fn lemma_digit_run(digits: Seq<char>, rest: Seq<char>)
    requires
        crate::text::all_digits(digits),
        rest.len() > 0 ==> !is_digit(rest[0]),
    ensures
        digit_run(digits + rest) == digits.len(),
    decreases digits.len(),
{
    if digits.len() == 0 {
        assert(digits + rest =~= rest);
    } else {
        assert(is_digit(digits[0]));
        assert((digits + rest).drop_first() =~= digits.drop_first() + rest);
        lemma_digit_run(digits.drop_first(), rest);
    }
}

proof fn lemma_number_member(name: Seq<char>, n: nat, max: nat, rest: Seq<char>)
    requires
        n <= max,
        rest.len() > 0 ==> !is_digit(rest[0]),
    ensures
        number_member(member(name, decimal(n), rest), name, max) == Some((n, rest)),
{
    lemma_literal(name, decimal(n) + rest);
    lemma_decimal(n);
    lemma_digit_run(decimal(n), rest);
    assert((decimal(n) + rest).take(decimal(n).len() as int) =~= decimal(n));
    assert((decimal(n) + rest).skip(decimal(n).len() as int) =~= rest);
}

proof fn lemma_truth_member(name: Seq<char>, b: bool, rest: Seq<char>)
    ensures
        truth_member(member(name, truth(b), rest), name) == Some((b, rest)),
{
    lemma_literal(name, truth(b) + rest);
    lemma_literal(truth(b), rest);
    reveal_strlit("true");
    reveal_strlit("false");
    if !b {
        let all = truth(b) + rest;
        assert(all[0] == 'f');
        if "true"@.is_prefix_of(all) {
            assert(all.take("true"@.len() as int)[0] == 't');
        }
    }
}

proof fn lemma_receive(s: SettingsView)
    ensures
        receive_in(settings_from(s, 7)) == Some((s.out_dir, s.recv_port as nat, s.recv_overwrite)),
{
    let f8 = settings_from(s, 8);
    let f9 = settings_from(s, 9);
    let f10 = settings_from(s, 10);
    reveal_strlit(",\"recv_overwrite\":");
    lemma_text_member(",\"out_dir\":"@, s.out_dir, f8);
    assert(f9 == member(",\"recv_overwrite\":"@, truth(s.recv_overwrite), f10));
    assert(f9[0] == ',');
    lemma_number_member(",\"recv_port\":"@, s.recv_port as nat, 0xFFFF, f9);
    lemma_truth_member(",\"recv_overwrite\":"@, s.recv_overwrite, f10);
}

proof fn lemma_options(s: SettingsView)
    ensures
        options_in(settings_from(s, 4)) == Some(
            (s.checksum, s.compress, s.overwrite, settings_from(s, 7)),
        ),
{
    lemma_truth_member(",\"checksum\":"@, s.checksum, settings_from(s, 5));
    lemma_truth_member(",\"compress\":"@, s.compress, settings_from(s, 6));
    lemma_truth_member(",\"overwrite\":"@, s.overwrite, settings_from(s, 7));
}

proof fn lemma_numbers(s: SettingsView)
    ensures
        number_member(settings_from(s, 2), ",\"port\":"@, 0xFFFF) == Some(
            (s.port as nat, settings_from(s, 3)),
        ),
        number_member(settings_from(s, 3), ",\"streams\":"@, 0xFF) == Some(
            (s.streams as nat, settings_from(s, 4)),
        ),
{
    let f3 = settings_from(s, 3);
    let f4 = settings_from(s, 4);
    reveal_strlit(",\"streams\":");
    reveal_strlit(",\"checksum\":");
    assert(f3 == member(",\"streams\":"@, decimal(s.streams as nat), f4));
    assert(f3[0] == ',');
    lemma_number_member(",\"port\":"@, s.port as nat, 0xFFFF, f3);
    assert(f4 == member(",\"checksum\":"@, truth(s.checksum), settings_from(s, 5)));
    assert(f4[0] == ',');
    lemma_number_member(",\"streams\":"@, s.streams as nat, 0xFF, f4);
}

proof fn lemma_texts(s: SettingsView)
    ensures
        text_member(settings_words(s), "{\"target_name\":"@) == Some(
            (s.target_name, settings_from(s, 1)),
        ),
        text_member(settings_from(s, 1), ",\"target_ip\":"@) == Some(
            (s.target_ip, settings_from(s, 2)),
        ),
{
    lemma_text_member("{\"target_name\":"@, s.target_name, settings_from(s, 1));
    lemma_text_member(",\"target_ip\":"@, s.target_ip, settings_from(s, 2));
}

/// What the window remembers is what it was told: settings that were written are
/// read back as they were.
pub proof fn law_settings_read_back(s: SettingsView)
    ensures
        settings_in(settings_words(s)) == Some(s),
{
    lemma_texts(s);
    lemma_numbers(s);
    lemma_options(s);
    lemma_receive(s);
}

/// Settings are written as one object, its members in this order and with no blanks.
pub proof fn law_settings_are_one_object(s: SettingsView)
    ensures
        ({
            let e9 = ",\"recv_overwrite\":"@ + (truth(s.recv_overwrite) + "}"@);
            let e8 = ",\"recv_port\":"@ + (decimal(s.recv_port as nat) + e9);
            let e7 = ",\"out_dir\":"@ + (quoted(s.out_dir) + e8);
            let e6 = ",\"overwrite\":"@ + (truth(s.overwrite) + e7);
            let e5 = ",\"compress\":"@ + (truth(s.compress) + e6);
            let e4 = ",\"checksum\":"@ + (truth(s.checksum) + e5);
            let e3 = ",\"streams\":"@ + (decimal(s.streams as nat) + e4);
            let e2 = ",\"port\":"@ + (decimal(s.port as nat) + e3);
            let e1 = ",\"target_ip\":"@ + (quoted(s.target_ip) + e2);
            let e0 = "{\"target_name\":"@ + (quoted(s.target_name) + e1);
            settings_words(s) == e0
        }),
{
    reveal_with_fuel(settings_from, 12);
}

/// A text is written character by character: a quote and a backslash behind a backslash,
/// a control character by its number in four digits, any other as it is.
pub proof fn law_texts_are_written_by_characters(s: Seq<char>, t: Seq<char>, c: char)
    ensures
        quoted(s) == seq!['"'] + escaped(s) + seq!['"'],
        escaped(s + t) == escaped(s) + escaped(t),
        c == '"' ==> escaped(seq![c]) == seq!['\\', '"'],
        c == '\\' ==> escaped(seq![c]) == seq!['\\', '\\'],
        c != '"' && c != '\\' && c as u32 >= 32 ==> escaped(seq![c]) == seq![c],
        (c as u32) < 10 ==> escaped(seq![c]) == seq!['\\', 'u', '0', '0', '0'] + decimal(
            (c as u32) as nat,
        ),
        16 <= c as u32 && (c as u32) < 26 ==> escaped(seq![c]) == seq!['\\', 'u', '0', '0', '1']
            + decimal((c as u32 - 16) as nat),
        (c as u32) < 32 ==> escaped(seq![c]).len() == 6,
{
    let one = seq![c];
    assert(one.drop_first() =~= Seq::empty());
    assert(escaped(one.drop_first()) =~= Seq::empty());
    assert(escape_one(c) + escaped(one.drop_first()) =~= escape_one(c));
    lemma_escaped_concat(s, t);
    if (c as u32) < 10 {
        let d = (c as u32) as nat;
        assert(decimal(d) =~= seq![(48 + d) as char]);
        assert(escape_one(c) =~= seq!['\\', 'u', '0', '0', '0'] + decimal(d));
    }
    if 16 <= c as u32 && (c as u32) < 26 {
        let d = (c as u32 - 16) as nat;
        assert(decimal(d) =~= seq![(48 + d) as char]);
        assert(escape_one(c) =~= seq!['\\', 'u', '0', '0', '1'] + decimal(d));
    }
}

proof fn lemma_escaped_concat(s: Seq<char>, t: Seq<char>)
    ensures
        escaped(s + t) == escaped(s) + escaped(t),
    decreases s.len(),
{
    if s.len() == 0 {
        assert(s + t =~= t);
        assert(escaped(s) + escaped(t) =~= escaped(t));
    } else {
        lemma_escaped_concat(s.drop_first(), t);
        assert((s + t).drop_first() =~= s.drop_first() + t);
        assert(escaped(s + t) =~= escaped(s) + escaped(t));
    }
}

/// A number that is too large for its member is not taken.
pub proof fn law_too_large_numbers_are_not_taken(n: nat, max: nat, rest: Seq<char>)
    requires
        rest.len() > 0 ==> !is_digit(rest[0]),
    ensures
        n <= max ==> read_number(decimal(n) + rest, max) == Some((n, rest)),
        n > max ==> read_number(decimal(n) + rest, max) is None,
        read_number(rest, max) is None,
{
    lemma_decimal(n);
    lemma_digit_run(decimal(n), rest);
    assert((decimal(n) + rest).take(decimal(n).len() as int) =~= decimal(n));
    assert((decimal(n) + rest).skip(decimal(n).len() as int) =~= rest);
}

/// A text is taken from its quote to the quote that ends it, and only where it begins
/// with one.
pub proof fn law_texts_are_taken_between_quotes(s: Seq<char>, rest: Seq<char>, other: Seq<char>)
    requires
        other.len() > 0 ==> other[0] != '"',
    ensures
        read_string(quoted(s) + rest) == Some((s, rest)),
        read_string(other) is None,
{
    let all = quoted(s) + rest;
    assert(all.drop_first() =~= escaped(s) + (seq!['"'] + rest));
    lemma_string_rest(s, rest);
}

} // verus!
