//! The messages between the master and the workers, and their JSON wire form.
use vstd::prelude::*;
use vstd::string::StrSliceExecFns;
use crate::json::{json_quote, push_quoted};
use crate::number::{all_digits, decimal, is_digit, lemma_decimal_digits, push_decimal};
use crate::json::json_escape;
use crate::text::push_str;

verus! {

/// A directive from the master to a worker.
pub enum MasterMessage {
    MapDirective { id: usize, input_file: String, output_file: String },
    ReduceDirective { id: usize, input_file: String, output_file: String },
    ShuffleDirective { id: usize, input_file: String, splits: usize },
}

/// A report from a worker to the master: the task of job `id` is done.
pub enum SlaveMessage {
    Done(usize),
}

/// A directive with its texts as character sequences.
pub enum DirectiveView {
    MapDirective { id: usize, input_file: Seq<char>, output_file: Seq<char> },
    ReduceDirective { id: usize, input_file: Seq<char>, output_file: Seq<char> },
    ShuffleDirective { id: usize, input_file: Seq<char>, splits: usize },
}

impl View for MasterMessage {
    type V = DirectiveView;

    open spec fn view(&self) -> DirectiveView {
        match self {
            MasterMessage::MapDirective { id, input_file, output_file } => DirectiveView::MapDirective {
                id: *id,
                input_file: input_file@,
                output_file: output_file@,
            },
            MasterMessage::ReduceDirective { id, input_file, output_file } => DirectiveView::ReduceDirective {
                id: *id,
                input_file: input_file@,
                output_file: output_file@,
            },
            MasterMessage::ShuffleDirective { id, input_file, splits } => DirectiveView::ShuffleDirective {
                id: *id,
                input_file: input_file@,
                splits: *splits,
            },
        }
    }
}

/// The JSON text of a directive, as serde writes an externally tagged enum.
pub open spec fn master_json(m: MasterMessage) -> Seq<char> {
    match m {
        MasterMessage::MapDirective { id, input_file, output_file } => "{\"MapDirective\":{\"id\":"@
            + decimal(id as nat) + ",\"input_file\":"@ + json_quote(input_file@)
            + ",\"output_file\":"@ + json_quote(output_file@) + "}}"@,
        MasterMessage::ReduceDirective { id, input_file, output_file } =>
            "{\"ReduceDirective\":{\"id\":"@ + decimal(id as nat) + ",\"input_file\":"@
            + json_quote(input_file@) + ",\"output_file\":"@ + json_quote(output_file@) + "}}"@,
        MasterMessage::ShuffleDirective { id, input_file, splits } =>
            "{\"ShuffleDirective\":{\"id\":"@ + decimal(id as nat) + ",\"input_file\":"@
            + json_quote(input_file@) + ",\"splits\":"@ + decimal(splits as nat) + "}}"@,
    }
}

/// The JSON text of a report.
pub open spec fn slave_json(m: SlaveMessage) -> Seq<char> {
    match m {
        SlaveMessage::Done(id) => "{\"Done\":"@ + decimal(id as nat) + "}"@,
    }
}

impl MasterMessage {
    /// The directive as JSON text.
    pub fn to_json(&self) -> (s: String)
        ensures
            s@ == master_json(*self),
    {
        let mut s = String::new();
        match self {
            MasterMessage::MapDirective { id, input_file, output_file } => {
                push_str(&mut s, "{\"MapDirective\":{\"id\":");
                push_decimal(&mut s, *id as u64);
                push_str(&mut s, ",\"input_file\":");
                push_quoted(&mut s, input_file.as_str());
                push_str(&mut s, ",\"output_file\":");
                push_quoted(&mut s, output_file.as_str());
                push_str(&mut s, "}}");
            },
            MasterMessage::ReduceDirective { id, input_file, output_file } => {
                push_str(&mut s, "{\"ReduceDirective\":{\"id\":");
                push_decimal(&mut s, *id as u64);
                push_str(&mut s, ",\"input_file\":");
                push_quoted(&mut s, input_file.as_str());
                push_str(&mut s, ",\"output_file\":");
                push_quoted(&mut s, output_file.as_str());
                push_str(&mut s, "}}");
            },
            MasterMessage::ShuffleDirective { id, input_file, splits } => {
                push_str(&mut s, "{\"ShuffleDirective\":{\"id\":");
                push_decimal(&mut s, *id as u64);
                push_str(&mut s, ",\"input_file\":");
                push_quoted(&mut s, input_file.as_str());
                push_str(&mut s, ",\"splits\":");
                push_decimal(&mut s, *splits as u64);
                push_str(&mut s, "}}");
            },
        }
        assert(s@ =~= master_json(*self));
        s
    }

    /// The directive as the bytes sent to a worker: its JSON text in UTF-8.
    pub fn to_u8_vec(&self) -> (v: Vec<u8>)
        ensures
            v@ == vstd::utf8::encode_utf8(master_json(*self)),
    {
        let s = self.to_json();
        s.as_str().as_bytes_vec()
    }
}

impl SlaveMessage {
    /// The report as JSON text.
    pub fn to_json(&self) -> (s: String)
        ensures
            s@ == slave_json(*self),
    {
        let mut s = String::new();
        match self {
            SlaveMessage::Done(id) => {
                push_str(&mut s, "{\"Done\":");
                push_decimal(&mut s, *id as u64);
                push_str(&mut s, "}");
            },
        }
        assert(s@ =~= slave_json(*self));
        s
    }

    /// The report as the bytes sent to the master: its JSON text in UTF-8.
    pub fn to_u8_vec(&self) -> (v: Vec<u8>)
        ensures
            v@ == vstd::utf8::encode_utf8(slave_json(*self)),
    {
        let s = self.to_json();
        s.as_str().as_bytes_vec()
    }
}

/// `std::str::from_utf8`.
/// Trusted: the contract claims that it accepts exactly the valid UTF-8 byte strings,
/// and that the text it gives is the decoding of the bytes.
#[verifier::external_body]
fn utf8_str(b: &[u8]) -> (r: Option<&str>)
    ensures
        r is Some <==> vstd::utf8::valid_utf8(b@),
        r matches Some(s) ==> s@ == vstd::utf8::decode_utf8(b@),
{
    std::str::from_utf8(b).ok()
}

/// Where a received message ends: at the first zero byte, or at 0 when there is none.
pub open spec fn message_end(b: Seq<u8>) -> nat {
    if exists|i: int| 0 <= i < b.len() && b[i] == 0 {
        (choose|i: int| 0 <= i < b.len() && b[i] == 0 && forall|j: int| 0 <= j < i ==> b[j] != 0) as nat
    } else {
        0
    }
}

/// The position of the first zero byte of `buf`, or 0 when there is none.
pub fn find_message_end(buf: &[u8]) -> (end: usize)
    ensures
        end == message_end(buf@),
        end <= buf@.len(),
{
    let mut i: usize = 0;
    while i < buf.len()
        invariant
            i <= buf@.len(),
            forall|j: int| 0 <= j < i ==> buf@[j] != 0,
        decreases buf@.len() - i,
    {
        if buf[i] == 0 {
            assert(0 <= i < buf@.len() && buf@[i as int] == 0 && forall|j: int| 0 <= j < i ==> buf@[j] != 0);
            assert(exists|k: int| 0 <= k < buf@.len() && buf@[k] == 0);
            let ghost c = choose|k: int| 0 <= k < buf@.len() && buf@[k] == 0 && forall|j: int| 0 <= j < k ==> buf@[j] != 0;
            assert(c == i as int) by {
                if c < i {
                    assert(buf@[c] != 0);
                }
                if c > i {
                    assert(buf@[i as int] != 0);
                }
            }
            return i;
        }
        i = i + 1;
    }
    0
}

/// The text of a received message: the bytes before the first zero byte, decoded as UTF-8
/// (no text at all when the buffer holds no zero byte).
pub fn get_string(buf: &[u8]) -> (s: String)
    requires
        vstd::utf8::valid_utf8(buf@.take(message_end(buf@) as int)),
    ensures
        s@ == vstd::utf8::decode_utf8(buf@.take(message_end(buf@) as int)),
{
    let end = find_message_end(buf);
    let head = vstd::slice::slice_subrange(buf, 0, end);
    assert(head@ == buf@.take(end as int));
    match utf8_str(head) {
        Some(t) => t.to_owned(),
        None => String::new(),
    }
}

/// The text holds no NUL character.
pub open spec fn nul_free(s: Seq<char>) -> bool {
    forall|i: int| 0 <= i < s.len() ==> #[trigger] s[i] != '\0'
}

proof fn lemma_concat_nul_free(a: Seq<char>, b: Seq<char>)
    requires
        nul_free(a),
        nul_free(b),
    ensures
        nul_free(a + b),
{
    assert forall|i: int| 0 <= i < (a + b).len() implies #[trigger] (a + b)[i] != '\0' by {
        if i < a.len() {
            assert((a + b)[i] == a[i]);
        } else {
            assert((a + b)[i] == b[i - a.len()]);
        }
    }
}

proof fn lemma_decimal_nul_free(n: nat)
    ensures
        nul_free(decimal(n)),
{
    lemma_decimal_digits(n);
    assert forall|i: int| 0 <= i < decimal(n).len() implies #[trigger] decimal(n)[i] != '\0' by {
        assert(is_digit(decimal(n)[i]));
    }
}

proof fn lemma_quote_nul_free(s: Seq<char>)
    ensures
        nul_free(crate::json::json_quote(s)),
    decreases s.len(),
{
    let f = |c: char| json_escape(c);
    let q = seq!['"'];
    assert(nul_free(q));
    lemma_escapes_nul_free(s);
    lemma_concat_nul_free(q, s.flat_map(f));
    lemma_concat_nul_free(q + s.flat_map(f), q);
}

proof fn lemma_escapes_nul_free(s: Seq<char>)
    ensures
        nul_free(s.flat_map(|c: char| json_escape(c))),
    decreases s.len(),
{
    let f = |c: char| json_escape(c);
    if s.len() == 0 {
        assert(s.flat_map(f) =~= Seq::<char>::empty());
    } else {
        let p = s.drop_last();
        lemma_escapes_nul_free(p);
        assert(s == p.push(s.last()));
        p.lemma_flat_map_push(f, s.last());
        let c = s.last();
        assert(nul_free(json_escape(c))) by {
            if (c as u32) < 0x20 && c != '\x08' && c != '\t' && c != '\n' && c != '\x0C' && c != '\r' {
                let e = json_escape(c);
                assert forall|i: int| 0 <= i < e.len() implies #[trigger] e[i] != '\0' by {
                    if i >= 4 {
                        let d = if i == 4 { (c as u32 / 16) as nat } else { (c as u32 % 16) as nat };
                        assert(crate::json::hex_digit(d) != '\0');
                    }
                }
            }
        }
        lemma_concat_nul_free(p.flat_map(f), json_escape(c));
    }
}

/// A directive's JSON text holds no NUL character.
pub proof fn lemma_master_json_nul_free(m: MasterMessage)
    ensures
        nul_free(master_json(m)),
{
    reveal_strlit("{\"MapDirective\":{\"id\":");
    reveal_strlit("{\"ReduceDirective\":{\"id\":");
    reveal_strlit("{\"ShuffleDirective\":{\"id\":");
    reveal_strlit(",\"input_file\":");
    reveal_strlit(",\"output_file\":");
    reveal_strlit(",\"splits\":");
    reveal_strlit("}}");
    match m {
        MasterMessage::MapDirective { id, input_file, output_file } => {
            let a = "{\"MapDirective\":{\"id\":"@;
            lemma_decimal_nul_free(id as nat);
            lemma_quote_nul_free(input_file@);
            lemma_quote_nul_free(output_file@);
            lemma_concat_nul_free(a, decimal(id as nat));
            let x1 = a + decimal(id as nat);
            lemma_concat_nul_free(x1, ",\"input_file\":"@);
            let x2 = x1 + ",\"input_file\":"@;
            lemma_concat_nul_free(x2, crate::json::json_quote(input_file@));
            let x3 = x2 + crate::json::json_quote(input_file@);
            lemma_concat_nul_free(x3, ",\"output_file\":"@);
            let x4 = x3 + ",\"output_file\":"@;
            lemma_concat_nul_free(x4, crate::json::json_quote(output_file@));
            let x5 = x4 + crate::json::json_quote(output_file@);
            lemma_concat_nul_free(x5, "}}"@);
        },
        MasterMessage::ReduceDirective { id, input_file, output_file } => {
            let a = "{\"ReduceDirective\":{\"id\":"@;
            lemma_decimal_nul_free(id as nat);
            lemma_quote_nul_free(input_file@);
            lemma_quote_nul_free(output_file@);
            lemma_concat_nul_free(a, decimal(id as nat));
            let x1 = a + decimal(id as nat);
            lemma_concat_nul_free(x1, ",\"input_file\":"@);
            let x2 = x1 + ",\"input_file\":"@;
            lemma_concat_nul_free(x2, crate::json::json_quote(input_file@));
            let x3 = x2 + crate::json::json_quote(input_file@);
            lemma_concat_nul_free(x3, ",\"output_file\":"@);
            let x4 = x3 + ",\"output_file\":"@;
            lemma_concat_nul_free(x4, crate::json::json_quote(output_file@));
            let x5 = x4 + crate::json::json_quote(output_file@);
            lemma_concat_nul_free(x5, "}}"@);
        },
        MasterMessage::ShuffleDirective { id, input_file, splits } => {
            let a = "{\"ShuffleDirective\":{\"id\":"@;
            lemma_decimal_nul_free(id as nat);
            lemma_decimal_nul_free(splits as nat);
            lemma_quote_nul_free(input_file@);
            lemma_concat_nul_free(a, decimal(id as nat));
            let x1 = a + decimal(id as nat);
            lemma_concat_nul_free(x1, ",\"input_file\":"@);
            let x2 = x1 + ",\"input_file\":"@;
            lemma_concat_nul_free(x2, crate::json::json_quote(input_file@));
            let x3 = x2 + crate::json::json_quote(input_file@);
            lemma_concat_nul_free(x3, ",\"splits\":"@);
            let x4 = x3 + ",\"splits\":"@;
            lemma_concat_nul_free(x4, decimal(splits as nat));
            let x5 = x4 + decimal(splits as nat);
            lemma_concat_nul_free(x5, "}}"@);
        },
    }
}

/// A report's JSON text holds no NUL character.
pub proof fn lemma_slave_json_nul_free(m: SlaveMessage)
    ensures
        nul_free(slave_json(m)),
{
    reveal_strlit("{\"Done\":");
    reveal_strlit("}");
    match m {
        SlaveMessage::Done(id) => {
            lemma_decimal_nul_free(id as nat);
            lemma_concat_nul_free("{\"Done\":"@, decimal(id as nat));
            lemma_concat_nul_free("{\"Done\":"@ + decimal(id as nat), "}"@);
        },
    }
}

proof fn lemma_scalar_nonzero(v: u32)
    requires
        v != 0,
    ensures
        forall|i: int|
            0 <= i < vstd::utf8::encode_scalar(v).len() ==> #[trigger] vstd::utf8::encode_scalar(v)[i] != 0,
{
    assert(1 <= v <= 0x7F ==> (v & 0x7F) as u8 != 0) by (bit_vector);
    assert(0xC0u8 | ((v >> 6) & 0x1F) as u8 != 0) by (bit_vector);
    assert(0xE0u8 | ((v >> 12) & 0x0F) as u8 != 0) by (bit_vector);
    assert(0xF0u8 | ((v >> 18) & 0x7) as u8 != 0) by (bit_vector);
    assert(0x80u8 | (v & 0x3F) as u8 != 0) by (bit_vector);
    assert(0x80u8 | ((v >> 6) & 0x3F) as u8 != 0) by (bit_vector);
    assert(0x80u8 | ((v >> 12) & 0x3F) as u8 != 0) by (bit_vector);
}

/// The UTF-8 bytes of a text without NUL hold no zero byte.
pub proof fn lemma_encode_nonzero(s: Seq<char>)
    requires
        nul_free(s),
    ensures
        forall|i: int|
            0 <= i < vstd::utf8::encode_utf8(s).len() ==> #[trigger] vstd::utf8::encode_utf8(s)[i] != 0,
    decreases s.len(),
{
    if s.len() > 0 {
        let r = s.drop_first();
        assert(nul_free(r)) by {
            assert forall|i: int| 0 <= i < r.len() implies #[trigger] r[i] != '\0' by {
                assert(r[i] == s[i + 1]);
            }
        }
        lemma_encode_nonzero(r);
        assert(s[0] != '\0');
        assert(s[0] as u32 != 0) by {
            vstd::utf8::char_u32_cast(s[0], s[0] as u32);
            vstd::utf8::char_u32_cast('\0', 0u32);
        }
        lemma_scalar_nonzero(s[0] as u32);
        let e = vstd::utf8::encode_scalar(s[0] as u32);
        let t = vstd::utf8::encode_utf8(r);
        assert forall|i: int| 0 <= i < (e + t).len() implies #[trigger] (e + t)[i] != 0 by {
            if i < e.len() {
                assert((e + t)[i] == e[i]);
            } else {
                assert((e + t)[i] == t[i - e.len()]);
            }
        }
    }
}

/// A text without NUL, sent as its UTF-8 bytes into a buffer whose next byte is zero, is
/// what `get_string` reads from that buffer.
pub proof fn lemma_text_reads_back(s: Seq<char>, buf: Seq<u8>)
    requires
        nul_free(s),
        buf.len() > vstd::utf8::encode_utf8(s).len(),
        buf.take(vstd::utf8::encode_utf8(s).len() as int) == vstd::utf8::encode_utf8(s),
        buf[vstd::utf8::encode_utf8(s).len() as int] == 0,
    ensures
        message_end(buf) == vstd::utf8::encode_utf8(s).len(),
        vstd::utf8::valid_utf8(buf.take(message_end(buf) as int)),
        vstd::utf8::decode_utf8(buf.take(message_end(buf) as int)) == s,
{
    let e = vstd::utf8::encode_utf8(s);
    let n = e.len() as int;
    lemma_encode_nonzero(s);
    assert forall|j: int| 0 <= j < n implies buf[j] != 0 by {
        assert(buf.take(n)[j] == buf[j]);
        assert(e[j] != 0);
    }
    assert(exists|i: int| 0 <= i < buf.len() && buf[i] == 0);
    let c = choose|i: int| 0 <= i < buf.len() && buf[i] == 0 && forall|j: int| 0 <= j < i ==> buf[j] != 0;
    assert(0 <= n < buf.len() && buf[n] == 0 && forall|j: int| 0 <= j < n ==> buf[j] != 0);
    assert(c == n) by {
        if c < n {
            assert(buf[c] != 0);
        }
        if c > n {
            assert(buf[n] != 0);
        }
    }
    vstd::utf8::encode_utf8_valid_utf8(s);
    vstd::utf8::encode_utf8_decode_utf8(s);
}

/// The read-back law for directives: the bytes that `to_u8_vec` sends hold no zero byte, and
/// a receive buffer that holds them followed by a zero byte reads back, through `get_string`,
/// as the directive's JSON text.
pub proof fn law_directive_reads_back(m: MasterMessage, buf: Seq<u8>)
    requires
        buf.len() > vstd::utf8::encode_utf8(master_json(m)).len(),
        buf.take(vstd::utf8::encode_utf8(master_json(m)).len() as int) == vstd::utf8::encode_utf8(
            master_json(m),
        ),
        buf[vstd::utf8::encode_utf8(master_json(m)).len() as int] == 0,
    ensures
        forall|i: int|
            0 <= i < vstd::utf8::encode_utf8(master_json(m)).len() ==> #[trigger] vstd::utf8::encode_utf8(
                master_json(m),
            )[i] != 0,
        vstd::utf8::valid_utf8(buf.take(message_end(buf) as int)),
        vstd::utf8::decode_utf8(buf.take(message_end(buf) as int)) == master_json(m),
{
    lemma_master_json_nul_free(m);
    lemma_encode_nonzero(master_json(m));
    lemma_text_reads_back(master_json(m), buf);
}

/// The read-back law for reports, as for directives.
pub proof fn law_report_reads_back(m: SlaveMessage, buf: Seq<u8>)
    requires
        buf.len() > vstd::utf8::encode_utf8(slave_json(m)).len(),
        buf.take(vstd::utf8::encode_utf8(slave_json(m)).len() as int) == vstd::utf8::encode_utf8(
            slave_json(m),
        ),
        buf[vstd::utf8::encode_utf8(slave_json(m)).len() as int] == 0,
    ensures
        forall|i: int|
            0 <= i < vstd::utf8::encode_utf8(slave_json(m)).len() ==> #[trigger] vstd::utf8::encode_utf8(
                slave_json(m),
            )[i] != 0,
        vstd::utf8::valid_utf8(buf.take(message_end(buf) as int)),
        vstd::utf8::decode_utf8(buf.take(message_end(buf) as int)) == slave_json(m),
{
    lemma_slave_json_nul_free(m);
    lemma_encode_nonzero(slave_json(m));
    lemma_text_reads_back(slave_json(m), buf);
}

} // verus!
