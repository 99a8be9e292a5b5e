use vstd::prelude::*;

use crate::error::KvsError;

verus! {

/// A key/value pair as carried by a `Set` record.
#[derive(Debug)]
pub struct SetCommand {
    pub key: Vec<u8>,
    pub value: Vec<u8>,
}

impl SetCommand {
    /// Builds the pair that a `Set` record carries.
    pub fn new(key: Vec<u8>, value: Vec<u8>) -> (c: SetCommand)
        ensures
            c.key@ == key@,
            c.value@ == value@,
    {
        SetCommand { key, value }
    }
}

/// One mutation of the store, exactly as recorded in the log.
#[derive(Debug)]
pub enum Command {
    /// Bind a key to a value.
    Put(SetCommand),
    /// Erase a key.
    Remove { key: Vec<u8> },
}

/// The mathematical form of a command: plain byte sequences.
pub enum CommandView {
    Put { key: Seq<u8>, value: Seq<u8> },
    Remove { key: Seq<u8> },
}

impl View for Command {
    type V = CommandView;

    open spec fn view(&self) -> CommandView {
        match self {
            Command::Put(sc) => CommandView::Put { key: sc.key@, value: sc.value@ },
            Command::Remove { key } => CommandView::Remove { key: key@ },
        }
    }
}

impl Command {
    /// Builds a `Set` command.
    pub fn set(key: Vec<u8>, value: Vec<u8>) -> (c: Command)
        ensures
            c@ == (CommandView::Put { key: key@, value: value@ }),
    {
        Command::Put(SetCommand::new(key, value))
    }

    /// Builds a `Remove` command.
    pub fn remove(key: Vec<u8>) -> (c: Command)
        ensures
            c@ == (CommandView::Remove { key: key@ }),
    {
        Command::Remove { key }
    }
}

/// A command whose key and value each fit in memory; every command built
/// from `Vec` contents satisfies this.
pub open spec fn wf_command(c: CommandView) -> bool {
    match c {
        CommandView::Put { key, value } => key.len() <= usize::MAX && value.len() <= usize::MAX,
        CommandView::Remove { key } => key.len() <= usize::MAX,
    }
}

/// The eight little-endian bytes of a 64-bit length field.
pub open spec fn le64_bytes(n: u64) -> Seq<u8> {
    seq![
        (n & 0xff) as u8,
        ((n >> 8) & 0xff) as u8,
        ((n >> 16) & 0xff) as u8,
        ((n >> 24) & 0xff) as u8,
        ((n >> 32) & 0xff) as u8,
        ((n >> 40) & 0xff) as u8,
        ((n >> 48) & 0xff) as u8,
        ((n >> 56) & 0xff) as u8,
    ]
}

/// The value read back from eight little-endian bytes.
pub open spec fn le64_value(b: Seq<u8>) -> u64
    recommends
        b.len() == 8,
{
    (b[0] as u64) | ((b[1] as u64) << 8) | ((b[2] as u64) << 16) | ((b[3] as u64) << 24)
        | ((b[4] as u64) << 32) | ((b[5] as u64) << 40) | ((b[6] as u64) << 48)
        | ((b[7] as u64) << 56)
}

pub proof fn lemma_le64_value_of_bytes(n: u64)
    ensures
        le64_value(le64_bytes(n)) == n,
{
    assert(((n & 0xff) as u8 as u64) | ((((n >> 8) & 0xff) as u8 as u64) << 8)
        | ((((n >> 16) & 0xff) as u8 as u64) << 16) | ((((n >> 24) & 0xff) as u8 as u64) << 24)
        | ((((n >> 32) & 0xff) as u8 as u64) << 32) | ((((n >> 40) & 0xff) as u8 as u64) << 40)
        | ((((n >> 48) & 0xff) as u8 as u64) << 48) | ((((n >> 56) & 0xff) as u8 as u64) << 56)
        == n) by (bit_vector);
}

pub proof fn lemma_le64_bytes_of_value(b: Seq<u8>)
    requires
        b.len() == 8,
    ensures
        le64_bytes(le64_value(b)) == b,
{
    let b0 = b[0];
    let b1 = b[1];
    let b2 = b[2];
    let b3 = b[3];
    let b4 = b[4];
    let b5 = b[5];
    let b6 = b[6];
    let b7 = b[7];
    let n = le64_value(b);
    assert((n & 0xff) as u8 == b0 && ((n >> 8) & 0xff) as u8 == b1 && ((n >> 16) & 0xff) as u8
        == b2 && ((n >> 24) & 0xff) as u8 == b3 && ((n >> 32) & 0xff) as u8 == b4 && ((n >> 40)
        & 0xff) as u8 == b5 && ((n >> 48) & 0xff) as u8 == b6 && ((n >> 56) & 0xff) as u8 == b7)
        by (bit_vector)
        requires
            n == (b0 as u64) | ((b1 as u64) << 8) | ((b2 as u64) << 16) | ((b3 as u64) << 24)
                | ((b4 as u64) << 32) | ((b5 as u64) << 40) | ((b6 as u64) << 48)
                | ((b7 as u64) << 56),
    ;
    assert(le64_bytes(n) =~= b);
}

/// The wire form of one command.  A record is self-framing: a tag byte,
/// then a length-prefixed key, and for `Set` a length-prefixed value.
pub open spec fn spec_encode(c: CommandView) -> Seq<u8> {
    match c {
        CommandView::Put { key, value } => seq![0u8] + le64_bytes(key.len() as u64) + key
            + le64_bytes(value.len() as u64) + value,
        CommandView::Remove { key } => seq![1u8] + le64_bytes(key.len() as u64) + key,
    }
}

/// Reads one record from the front of `b`: the command and the exact
/// number of bytes it occupies, or nothing when no well-formed record
/// starts there.
pub open spec fn spec_decode(b: Seq<u8>) -> Option<(CommandView, int)> {
    if b.len() < 9 {
        None
    } else if b[0] == 0u8 {
        let klen = le64_value(b.subrange(1, 9)) as int;
        if 17 + klen <= b.len() {
            let vlen = le64_value(b.subrange(9 + klen, 17 + klen)) as int;
            if 17 + klen + vlen <= b.len() {
                Some(
                    (
                        CommandView::Put {
                            key: b.subrange(9, 9 + klen),
                            value: b.subrange(17 + klen, 17 + klen + vlen),
                        },
                        17 + klen + vlen,
                    ),
                )
            } else {
                None
            }
        } else {
            None
        }
    } else if b[0] == 1u8 {
        let klen = le64_value(b.subrange(1, 9)) as int;
        if 9 + klen <= b.len() {
            Some((CommandView::Remove { key: b.subrange(9, 9 + klen) }, 9 + klen))
        } else {
            None
        }
    } else {
        None
    }
}

/// Every record occupies at least its tag byte and one length field.
pub proof fn lemma_encode_len(c: CommandView)
    ensures
        spec_encode(c).len() >= 9,
        c matches CommandView::Put { key, value } ==> spec_encode(c).len() == 17 + key.len()
            + value.len(),
        c matches CommandView::Remove { key } ==> spec_encode(c).len() == 9 + key.len(),
{
    match c {
        CommandView::Put { key, value } => {
            assert(le64_bytes(key.len() as u64).len() == 8);
            assert(le64_bytes(value.len() as u64).len() == 8);
        },
        CommandView::Remove { key } => {
            assert(le64_bytes(key.len() as u64).len() == 8);
        },
    }
}

/// Round trip in context: a record's wire form, followed by any further
/// bytes, decodes to exactly that record and consumes exactly its length.
pub proof fn lemma_decode_of_encode(c: CommandView, rest: Seq<u8>)
    requires
        wf_command(c),
    ensures
        spec_decode(spec_encode(c) + rest) == Some((c, spec_encode(c).len() as int)),
{
    let enc = spec_encode(c);
    let b = enc + rest;
    lemma_encode_len(c);
    match c {
        CommandView::Put { key, value } => {
            let klen = key.len() as int;
            let vlen = value.len() as int;
            lemma_le64_value_of_bytes(key.len() as u64);
            lemma_le64_value_of_bytes(value.len() as u64);
            assert(b[0] == 0u8);
            assert(b.subrange(1, 9) =~= le64_bytes(key.len() as u64));
            assert(key.len() as u64 as int == klen);
            assert(b.subrange(9 + klen, 17 + klen) =~= le64_bytes(value.len() as u64));
            assert(value.len() as u64 as int == vlen);
            assert(b.subrange(9, 9 + klen) =~= key);
            assert(b.subrange(17 + klen, 17 + klen + vlen) =~= value);
        },
        CommandView::Remove { key } => {
            let klen = key.len() as int;
            lemma_le64_value_of_bytes(key.len() as u64);
            assert(b[0] == 1u8);
            assert(b.subrange(1, 9) =~= le64_bytes(key.len() as u64));
            assert(key.len() as u64 as int == klen);
            assert(b.subrange(9, 9 + klen) =~= key);
        },
    }
}

/// Round trip: decoding an encoded record yields the original record and
/// consumes exactly the encoding's length.
pub proof fn lemma_encode_decode_round_trip(c: CommandView)
    requires
        wf_command(c),
    ensures
        spec_decode(spec_encode(c)) == Some((c, spec_encode(c).len() as int)),
{
    lemma_decode_of_encode(c, Seq::<u8>::empty());
    assert(spec_encode(c) + Seq::<u8>::empty() =~= spec_encode(c));
}

/// The format is canonical: a successful decode consumes a prefix that
/// re-encodes to the very same bytes, and the record read back is
/// well-formed whenever the buffer fits in memory.
pub proof fn lemma_encode_of_decode(b: Seq<u8>)
    ensures
        forall|c: CommandView, n: int|
            spec_decode(b) == Some((c, n)) ==> {
                &&& 9 <= n <= b.len()
                &&& spec_encode(c) == b.subrange(0, n)
                &&& (b.len() <= usize::MAX ==> wf_command(c))
            },
{
    if b.len() >= 9 && b[0] == 0u8 {
        let klen = le64_value(b.subrange(1, 9)) as int;
        if 17 + klen <= b.len() {
            let vlen = le64_value(b.subrange(9 + klen, 17 + klen)) as int;
            if 17 + klen + vlen <= b.len() {
                let key = b.subrange(9, 9 + klen);
                let value = b.subrange(17 + klen, 17 + klen + vlen);
                let c = CommandView::Put { key, value };
                let n = 17 + klen + vlen;
                lemma_le64_bytes_of_value(b.subrange(1, 9));
                lemma_le64_bytes_of_value(b.subrange(9 + klen, 17 + klen));
                assert(key.len() as u64 == le64_value(b.subrange(1, 9)));
                assert(value.len() as u64 == le64_value(b.subrange(9 + klen, 17 + klen)));
                assert(spec_encode(c) =~= b.subrange(0, n));
            }
        }
    } else if b.len() >= 9 && b[0] == 1u8 {
        let klen = le64_value(b.subrange(1, 9)) as int;
        if 9 + klen <= b.len() {
            let key = b.subrange(9, 9 + klen);
            let c = CommandView::Remove { key };
            let n = 9 + klen;
            lemma_le64_bytes_of_value(b.subrange(1, 9));
            assert(key.len() as u64 == le64_value(b.subrange(1, 9)));
            assert(spec_encode(c) =~= b.subrange(0, n));
        }
    }
}

/// The records read greedily from the front of `b`, stopping at the first
/// position where no well-formed record starts (a torn tail).
pub open spec fn records_of(b: Seq<u8>) -> Seq<CommandView>
    decreases b.len(),
{
    match spec_decode(b) {
        Some((c, n)) => if 1 <= n <= b.len() {
            seq![c] + records_of(b.skip(n))
        } else {
            Seq::<CommandView>::empty()
        },
        None => Seq::<CommandView>::empty(),
    }
}

/// The bytes of a sequence of records laid back to back.
pub open spec fn concat_encodes(rs: Seq<CommandView>) -> Seq<u8>
    decreases rs.len(),
{
    if rs.len() == 0 {
        Seq::<u8>::empty()
    } else {
        concat_encodes(rs.drop_last()) + spec_encode(rs.last())
    }
}

pub proof fn lemma_concat_encodes_first(rs: Seq<CommandView>)
    requires
        rs.len() > 0,
    ensures
        concat_encodes(rs) == spec_encode(rs.first()) + concat_encodes(rs.drop_first()),
    decreases rs.len(),
{
    if rs.len() == 1 {
        assert(rs.last() == rs.first());
        assert(concat_encodes(rs.drop_last()).len() == 0);
        assert(concat_encodes(rs.drop_first()).len() == 0);
        assert(concat_encodes(rs) =~= spec_encode(rs.first()) + concat_encodes(rs.drop_first()));
    } else {
        let dl = rs.drop_last();
        lemma_concat_encodes_first(dl);
        assert(dl.first() == rs.first());
        assert(rs.drop_first().drop_last() =~= dl.drop_first());
        assert(rs.drop_first().last() == rs.last());
        assert(concat_encodes(rs.drop_first()) == concat_encodes(dl.drop_first()) + spec_encode(
            rs.last(),
        ));
        assert(concat_encodes(rs) =~= spec_encode(rs.first()) + concat_encodes(rs.drop_first()));
    }
}

/// Greedy decoding inverts back-to-back encoding: the records come back
/// exactly, and decoding continues into whatever follows them.
#[verifier::rlimit(60)]
pub proof fn lemma_records_of_concat(rs: Seq<CommandView>, tail: Seq<u8>)
    requires
        forall|i: int| 0 <= i < rs.len() ==> wf_command(#[trigger] rs[i]),
    ensures
        records_of(concat_encodes(rs) + tail) == rs + records_of(tail),
    decreases rs.len(),
{
    if rs.len() == 0 {
        assert(concat_encodes(rs) + tail =~= tail);
        assert(rs + records_of(tail) =~= records_of(tail));
    } else {
        lemma_concat_encodes_first(rs);
        let c = rs.first();
        let enc = spec_encode(c);
        let rest = concat_encodes(rs.drop_first()) + tail;
        let b = concat_encodes(rs) + tail;
        assert(b =~= enc + rest);
        assert(wf_command(c));
        lemma_decode_of_encode(c, rest);
        lemma_encode_len(c);
        let n = enc.len() as int;
        assert(spec_decode(b) == Some((c, n)));
        assert(1 <= n <= b.len());
        assert(b.skip(n) =~= rest);
        assert(records_of(b) == seq![c] + records_of(rest));
        assert(forall|i: int|
            0 <= i < rs.drop_first().len() ==> wf_command(#[trigger] rs.drop_first()[i]));
        lemma_records_of_concat(rs.drop_first(), tail);
        assert(records_of(b) == seq![c] + (rs.drop_first() + records_of(tail)));
        assert(seq![c] + (rs.drop_first() + records_of(tail)) =~= rs + records_of(tail));
    }
}

/// Decoding a log that holds exactly a sequence of records yields those
/// records and nothing else.
pub proof fn lemma_records_of_exact(rs: Seq<CommandView>)
    requires
        forall|i: int| 0 <= i < rs.len() ==> wf_command(#[trigger] rs[i]),
    ensures
        records_of(concat_encodes(rs)) == rs,
{
    lemma_records_of_concat(rs, Seq::<u8>::empty());
    assert(concat_encodes(rs) + Seq::<u8>::empty() =~= concat_encodes(rs));
    assert(records_of(Seq::<u8>::empty()) =~= Seq::<CommandView>::empty());
    assert(rs + Seq::<CommandView>::empty() =~= rs);
}

/// Appends the eight little-endian bytes of `n`.
fn push_le64(out: &mut Vec<u8>, n: u64)
    ensures
        final(out)@ == old(out)@ + le64_bytes(n),
{
    out.push((n & 0xff) as u8);
    out.push(((n >> 8) & 0xff) as u8);
    out.push(((n >> 16) & 0xff) as u8);
    out.push(((n >> 24) & 0xff) as u8);
    out.push(((n >> 32) & 0xff) as u8);
    out.push(((n >> 40) & 0xff) as u8);
    out.push(((n >> 48) & 0xff) as u8);
    out.push(((n >> 56) & 0xff) as u8);
    assert(out@ =~= old(out)@ + le64_bytes(n));
}

/// Reads a 64-bit little-endian length field at `pos`.
fn read_le64(data: &Vec<u8>, pos: usize) -> (r: u64)
    requires
        pos + 8 <= data.len(),
    ensures
        r == le64_value(data@.subrange(pos as int, pos as int + 8)),
{
    let b0 = data[pos];
    let b1 = data[pos + 1];
    let b2 = data[pos + 2];
    let b3 = data[pos + 3];
    let b4 = data[pos + 4];
    let b5 = data[pos + 5];
    let b6 = data[pos + 6];
    let b7 = data[pos + 7];
    let r = (b0 as u64) | ((b1 as u64) << 8) | ((b2 as u64) << 16) | ((b3 as u64) << 24) | ((
    b4 as u64) << 32) | ((b5 as u64) << 40) | ((b6 as u64) << 48) | ((b7 as u64) << 56);
    proof {
        let s = data@.subrange(pos as int, pos as int + 8);
        assert(s[0] == b0 && s[1] == b1 && s[2] == b2 && s[3] == b3 && s[4] == b4 && s[5] == b5
            && s[6] == b6 && s[7] == b7);
    }
    r
}

/// Serializes one command into its self-framing wire form.
pub fn encode(c: &Command) -> (out: Vec<u8>)
    ensures
        out@ == spec_encode(c@),
{
    let mut out: Vec<u8> = Vec::new();
    match c {
        Command::Put(sc) => {
            out.push(0u8);
            push_le64(&mut out, sc.key.len() as u64);
            let mut k = vstd::slice::slice_to_vec(sc.key.as_slice());
            out.append(&mut k);
            push_le64(&mut out, sc.value.len() as u64);
            let mut v = vstd::slice::slice_to_vec(sc.value.as_slice());
            out.append(&mut v);
            assert(out@ =~= spec_encode(c@));
        },
        Command::Remove { key } => {
            out.push(1u8);
            push_le64(&mut out, key.len() as u64);
            let mut k = vstd::slice::slice_to_vec(key.as_slice());
            out.append(&mut k);
            assert(out@ =~= spec_encode(c@));
        },
    }
    out
}

/// Deserializes exactly one record starting at byte `start`, reporting the
/// number of bytes it consumed; fails with `CorruptRecord` when no
/// well-formed record starts there.
pub fn decode_one(data: &Vec<u8>, start: usize) -> (r: Result<(Command, usize), KvsError>)
    requires
        start <= data.len(),
    ensures
        match r {
            Ok(p) => {
                &&& spec_decode(data@.skip(start as int)) == Some((p.0@, p.1 as int))
                &&& 9 <= p.1
                &&& start + p.1 <= data@.len()
            },
            Err(e) => e == KvsError::CorruptRecord && spec_decode(data@.skip(start as int))
                is None,
        },
{
    let len = data.len();
    let rem = len - start;
    let ghost tail = data@.skip(start as int);
    assert(tail.len() == rem);
    if rem < 9 {
        return Err(KvsError::CorruptRecord);
    }
    let tag = data[start];
    assert(tail[0] == tag);
    let klen64 = read_le64(data, start + 1);
    proof {
        assert(data@.subrange(start as int + 1, start as int + 9) =~= tail.subrange(1, 9));
    }
    if tag == 0 {
        if rem < 17 {
            return Err(KvsError::CorruptRecord);
        }
        let max_k = rem - 17;
        if klen64 > max_k as u64 {
            return Err(KvsError::CorruptRecord);
        }
        let klen = klen64 as usize;
        let vlen64 = read_le64(data, start + 9 + klen);
        proof {
            assert(data@.subrange(
                start as int + 9 + klen as int,
                start as int + 17 + klen as int,
            ) =~= tail.subrange(9 + klen as int, 17 + klen as int));
        }
        let max_v = rem - 17 - klen;
        if vlen64 > max_v as u64 {
            return Err(KvsError::CorruptRecord);
        }
        let vlen = vlen64 as usize;
        let key = vstd::slice::slice_to_vec(
            vstd::slice::slice_subrange(data.as_slice(), start + 9, start + 9 + klen),
        );
        let value = vstd::slice::slice_to_vec(
            vstd::slice::slice_subrange(
                data.as_slice(),
                start + 17 + klen,
                start + 17 + klen + vlen,
            ),
        );
        let n = 17 + klen + vlen;
        proof {
            assert(key@ =~= tail.subrange(9, 9 + klen as int));
            assert(value@ =~= tail.subrange(17 + klen as int, 17 + klen as int + vlen as int));
        }
        Ok((Command::Put(SetCommand { key, value }), n))
    } else if tag == 1 {
        let max_k = rem - 9;
        if klen64 > max_k as u64 {
            return Err(KvsError::CorruptRecord);
        }
        let klen = klen64 as usize;
        let key = vstd::slice::slice_to_vec(
            vstd::slice::slice_subrange(data.as_slice(), start + 9, start + 9 + klen),
        );
        let n = 9 + klen;
        proof {
            assert(key@ =~= tail.subrange(9, 9 + klen as int));
        }
        Ok((Command::Remove { key }, n))
    } else {
        Err(KvsError::CorruptRecord)
    }
}

} // verus!
