//! The semicolon-separated string a Bedrock server puts in its pong.
//!
//! ```text
//! MCPE;<motd>;<protocol>;<version>;<online>;<max>;<guid>;<sub-motd>;<gamemode>[;...]
//!  0     1        2          3        4      5     6         7          8
//! ```
//!
//! The field count varies between servers, and some end with a trailing `;`, which
//! yields an empty final field; so nothing here is mandatory and every accessor
//! returns `Option`. The values are a claim by the operator, not a fact about the
//! protocol.
use crate::text::{chars_of, parse_i64_chars, parse_signed, parse_unsigned, parse_unsigned_chars, string_from};
use vstd::prelude::*;

verus! {

/// `s` cut at every `sep`: as many pieces as separators plus one, empty ones included.
pub open spec fn split_on(s: Seq<char>, sep: char) -> Seq<Seq<char>>
    decreases s.len(),
{
    if s.len() == 0 {
        seq![Seq::<char>::empty()]
    } else {
        let rest = split_on(s.drop_last(), sep);
        if s.last() == sep {
            rest.push(Seq::<char>::empty())
        } else {
            rest.update(rest.len() - 1, rest.last().push(s.last()))
        }
    }
}

/// There is always at least one piece.
proof fn lemma_split_nonempty(s: Seq<char>, sep: char)
    ensures
        split_on(s, sep).len() >= 1,
    decreases s.len(),
{
    if s.len() > 0 {
        lemma_split_nonempty(s.drop_last(), sep);
    }
}

/// A parsed advertisement string.
///
/// Parsing cannot fail: an advertisement is whatever the server chose to send.
#[derive(Debug, Clone, PartialEq, Eq)]
pub struct Advertisement {
    fields: Vec<String>,
}

impl View for Advertisement {
    type V = Seq<Seq<char>>;

    closed spec fn view(&self) -> Seq<Seq<char>> {
        self.fields@.map_values(|f: String| f@)
    }
}

/// The field at `index`, if there is one.
pub open spec fn field_at(a: Seq<Seq<char>>, index: int) -> Option<Seq<char>> {
    if 0 <= index < a.len() {
        Some(a[index])
    } else {
        None
    }
}

/// A field read as an unsigned number no greater than `max`.
pub open spec fn number_at(a: Seq<Seq<char>>, index: int, max: nat) -> Option<nat> {
    match field_at(a, index) {
        Some(f) => parse_unsigned(f, max),
        None => None,
    }
}

impl Advertisement {
    /// Splits an advertisement into its fields.
    pub fn parse(s: &str) -> (a: Self)
        ensures
            a@ == split_on(s@, ';'),
    {
        let chars = chars_of(s);
        let mut fields: Vec<String> = Vec::new();
        let mut current: Vec<char> = Vec::new();
        let mut i: usize = 0;
        proof {
            assert(chars@.take(0) =~= Seq::<char>::empty());
            assert(fields@.map_values(|f: String| f@).push(current@) =~= split_on(chars@.take(0), ';'));
        }
        while i < chars.len()
            invariant
                i <= chars@.len(),
                fields@.map_values(|f: String| f@).push(current@) == split_on(chars@.take(i as int), ';'),
            decreases chars@.len() - i,
        {
            let c = chars[i];
            let ghost prev = fields@.map_values(|f: String| f@);
            proof {
                assert(chars@.take(i + 1).drop_last() =~= chars@.take(i as int));
                assert(chars@.take(i + 1).last() == c);
            }
            if c == ';' {
                let piece = string_from(current.as_slice());
                fields.push(piece);
                current = Vec::new();
                proof {
                    assert(fields@.map_values(|f: String| f@) =~= prev.push(piece@));
                    assert(fields@.map_values(|f: String| f@).push(current@) =~= prev.push(piece@).push(Seq::<char>::empty()));
                }
            } else {
                let ghost before = current@;
                current.push(c);
                proof {
                    let whole = prev.push(before);
                    assert(prev.push(current@) =~= whole.update(whole.len() - 1, whole.last().push(c)));
                }
            }
            i = i + 1;
        }
        let last = string_from(current.as_slice());
        let ghost prev = fields@.map_values(|f: String| f@);
        fields.push(last);
        proof {
            assert(fields@.map_values(|f: String| f@) =~= prev.push(last@));
            assert(chars@.take(i as int) =~= s@);
        }
        Advertisement { fields }
    }

    /// The field at `index`, if the server sent that many.
    pub fn field(&self, index: usize) -> (f: Option<&str>)
        ensures
            match f {
                Some(f) => field_at(self@, index as int) == Some(f@),
                None => field_at(self@, index as int) is None,
            },
    {
        if index < self.fields.len() {
            Some(self.fields[index].as_str())
        } else {
            None
        }
    }

    /// How many fields the server sent.
    pub fn len(&self) -> (n: usize)
        ensures
            n == self@.len(),
    {
        self.fields.len()
    }

    /// Whether there are no fields at all. A parsed advertisement always has one.
    pub fn is_empty(&self) -> (b: bool)
        ensures
            b == (self@.len() == 0),
    {
        self.fields.len() == 0
    }

    /// Every field, in order.
    pub fn fields(&self) -> (fs: Vec<&str>)
        ensures
            fs@.len() == self@.len(),
            forall|i: int| 0 <= i < fs@.len() ==> (#[trigger] fs@[i])@ == self@[i],
    {
        let mut out: Vec<&str> = Vec::new();
        let mut i: usize = 0;
        while i < self.fields.len()
            invariant
                i <= self.fields@.len(),
                out@.len() == i,
                forall|j: int| 0 <= j < i ==> (#[trigger] out@[j])@ == self@[j],
            decreases self.fields@.len() - i,
        {
            out.push(self.fields[i].as_str());
            i = i + 1;
        }
        out
    }

    /// Field 0: the edition tag, `MCPE` on every server observed.
    pub fn edition(&self) -> (f: Option<&str>)
        ensures
            match f {
                Some(f) => field_at(self@, 0) == Some(f@),
                None => field_at(self@, 0) is None,
            },
    {
        self.field(0)
    }

    /// Field 1: the first MOTD line.
    pub fn motd(&self) -> (f: Option<&str>)
        ensures
            match f {
                Some(f) => field_at(self@, 1) == Some(f@),
                None => field_at(self@, 1) is None,
            },
    {
        self.field(1)
    }

    /// Field 2: the protocol version the server claims to speak.
    pub fn protocol_version(&self) -> (v: Option<u32>)
        ensures
            match number_at(self@, 2, u32::MAX as nat) {
                Some(n) => v == Some(n as u32),
                None => v is None,
            },
    {
        match self.number(2, 0xffff_ffff) {
            Some(n) => Some(n as u32),
            None => None,
        }
    }

    /// Field 3: the human-readable version string the server claims.
    pub fn version_name(&self) -> (f: Option<&str>)
        ensures
            match f {
                Some(f) => field_at(self@, 3) == Some(f@),
                None => field_at(self@, 3) is None,
            },
    {
        self.field(3)
    }

    /// Field 4: players online, as claimed.
    pub fn online_players(&self) -> (v: Option<u64>)
        ensures
            match number_at(self@, 4, u64::MAX as nat) {
                Some(n) => v == Some(n as u64),
                None => v is None,
            },
    {
        self.number(4, u64::MAX)
    }

    /// Field 5: player slots, as claimed.
    pub fn max_players(&self) -> (v: Option<u64>)
        ensures
            match number_at(self@, 5, u64::MAX as nat) {
                Some(n) => v == Some(n as u64),
                None => v is None,
            },
    {
        self.number(5, u64::MAX)
    }

    /// Field 6: the server GUID, repeated here from the pong header.
    pub fn server_guid(&self) -> (v: Option<i64>)
        ensures
            match field_at(self@, 6) {
                Some(f) => match parse_signed(f) {
                    Some(n) => v == Some(n as i64),
                    None => v is None,
                },
                None => v is None,
            },
    {
        match self.field(6) {
            Some(f) => {
                let cs = chars_of(f);
                parse_i64_chars(cs.as_slice())
            },
            None => None,
        }
    }

    /// Field 7: the second MOTD line. Often empty.
    pub fn sub_motd(&self) -> (f: Option<&str>)
        ensures
            match f {
                Some(f) => field_at(self@, 7) == Some(f@),
                None => field_at(self@, 7) is None,
            },
    {
        self.field(7)
    }

    /// Field 8: the default gamemode, as a name.
    pub fn gamemode(&self) -> (f: Option<&str>)
        ensures
            match f {
                Some(f) => field_at(self@, 8) == Some(f@),
                None => field_at(self@, 8) is None,
            },
    {
        self.field(8)
    }

    /// A field read as an unsigned number no greater than `max`.
    fn number(&self, index: usize, max: u64) -> (v: Option<u64>)
        ensures
            match number_at(self@, index as int, max as nat) {
                Some(n) => v == Some(n as u64),
                None => v is None,
            },
    {
        match self.field(index) {
            Some(f) => {
                let cs = chars_of(f);
                parse_unsigned_chars(cs.as_slice(), max)
            },
            None => None,
        }
    }
}

/// A parsed string has one more field than it has separators, so never none.
pub proof fn lemma_parse_never_empty(s: Seq<char>)
    ensures
        split_on(s, ';').len() >= 1,
{
    lemma_split_nonempty(s, ';');
}

} // verus!
