//! Chunk emitter: compresses a finished chunk and derives the name of the
//! artifact it is persisted under, `<prefix>.<NNN>.zst` with a zero-padded
//! index.

use vstd::prelude::*;

verus! {

/// Compression failed; the run is abandoned rather than retried.
#[derive(Clone, Copy, Debug, PartialEq, Eq, Structural)]
pub struct CodecError;

/// The zstd frame that compressing a byte sequence at a level yields; what it
/// is on given bytes only the codec knows.
pub uninterp spec fn compressed_of(data: Seq<u8>, level: int) -> Seq<u8>;

/// Compression level the emitter uses.
pub const COMPRESSION_LEVEL: i32 = 3;

/// Relies on `zstd::stream::encode_all`: the compressed frame is a function
/// of the input bytes and the level alone, so rerunning on the same chunk
/// yields identical bytes. Nothing is promised of when it fails.
#[verifier::external_body]
fn zstd_compress(data: &[u8], level: i32) -> (r: Result<Vec<u8>, CodecError>)
    ensures
        r matches Ok(v) ==> v@ == compressed_of(data@, level as int),
{
    match zstd::stream::encode_all(data, level) {
        Ok(v) => Ok(v),
        Err(_) => Err(CodecError),
    }
}

/// The decimal digits of `n`, most significant first.
pub open spec fn dec_digits(n: int) -> Seq<char>
    decreases n,
{
    if n < 10 {
        seq![digit_char(n)]
    } else {
        dec_digits(n / 10) + seq![digit_char(n % 10)]
    }
}

/// The character for one decimal digit.
pub open spec fn digit_char(d: int) -> char {
    if d == 0 {
        '0'
    } else if d == 1 {
        '1'
    } else if d == 2 {
        '2'
    } else if d == 3 {
        '3'
    } else if d == 4 {
        '4'
    } else if d == 5 {
        '5'
    } else if d == 6 {
        '6'
    } else if d == 7 {
        '7'
    } else if d == 8 {
        '8'
    } else {
        '9'
    }
}

/// The index part of an artifact name: the decimal digits of `n`, left-padded
/// with zeros to at least three places.
pub open spec fn padded_index(n: int) -> Seq<char> {
    if n < 10 {
        seq!['0', '0'] + dec_digits(n)
    } else if n < 100 {
        seq!['0'] + dec_digits(n)
    } else {
        dec_digits(n)
    }
}

/// The artifact name for chunk `n`: `<prefix>.<NNN>.zst`, collision-free and
/// sortable by index.
pub open spec fn artifact_name(prefix: Seq<char>, n: int) -> Seq<char> {
    prefix + seq!['.'] + padded_index(n) + seq!['.', 'z', 's', 't']
}

fn digit_char_of(d: usize) -> (r: char)
    requires
        d < 10,
    ensures
        r == digit_char(d as int),
{
    if d == 0 {
        '0'
    } else if d == 1 {
        '1'
    } else if d == 2 {
        '2'
    } else if d == 3 {
        '3'
    } else if d == 4 {
        '4'
    } else if d == 5 {
        '5'
    } else if d == 6 {
        '6'
    } else if d == 7 {
        '7'
    } else if d == 8 {
        '8'
    } else {
        '9'
    }
}

fn dec_digits_of(n: usize) -> (r: Vec<char>)
    ensures
        r@ == dec_digits(n as int),
    decreases n,
{
    if n < 10 {
        let mut v: Vec<char> = Vec::new();
        v.push(digit_char_of(n));
        proof {
            assert(v@ =~= seq![digit_char(n as int)]);
        }
        v
    } else {
        let mut v = dec_digits_of(n / 10);
        v.push(digit_char_of(n % 10));
        proof {
            assert(v@ =~= dec_digits(n as int / 10) + seq![digit_char(n as int % 10)]);
        }
        v
    }
}

/// Builds the artifact name for chunk `index` under `prefix`.
pub fn chunk_file_name(prefix: &Vec<char>, index: usize) -> (r: Vec<char>)
    requires
        prefix@.len() + 9 <= usize::MAX,
    ensures
        r@ == artifact_name(prefix@, index as int),
{
    let mut out: Vec<char> = Vec::new();
    let mut i: usize = 0;
    while i < prefix.len()
        invariant
            i <= prefix@.len(),
            out@ == prefix@.subrange(0, i as int),
        decreases prefix@.len() - i,
    {
        out.push(prefix[i]);
        proof {
            assert(out@ =~= prefix@.subrange(0, i + 1));
        }
        i = i + 1;
    }
    proof {
        assert(out@ =~= prefix@);
    }
    out.push('.');
    if index < 10 {
        out.push('0');
        out.push('0');
    } else if index < 100 {
        out.push('0');
    }
    let mut digits = dec_digits_of(index);
    let mut j: usize = 0;
    let ghost before = out@;
    while j < digits.len()
        invariant
            j <= digits@.len(),
            out@ == before + digits@.subrange(0, j as int),
        decreases digits@.len() - j,
    {
        out.push(digits[j]);
        proof {
            assert(out@ =~= before + digits@.subrange(0, j + 1));
        }
        j = j + 1;
    }
    out.push('.');
    out.push('z');
    out.push('s');
    out.push('t');
    proof {
        assert(digits@.subrange(0, digits@.len() as int) =~= digits@);
        assert(out@ =~= artifact_name(prefix@, index as int));
    }
    out
}

/// A compressed chunk together with the artifact name it is persisted under.
pub struct Artifact {
    pub name: Vec<char>,
    pub data: Vec<u8>,
}

/// Compresses a finished chunk and names its artifact. The compressed bytes
/// and the name depend only on the chunk, the prefix and the index, so a
/// rerun over the same input produces byte-identical artifacts.
pub fn emit_chunk(bytes: &Vec<u8>, prefix: &Vec<char>, index: usize) -> (r: Result<
    Artifact,
    CodecError,
>)
    requires
        prefix@.len() + 9 <= usize::MAX,
    ensures
        r matches Ok(a) ==> a.name@ == artifact_name(prefix@, index as int) && a.data@
            == compressed_of(bytes@, COMPRESSION_LEVEL as int),
{
    let data = match zstd_compress(bytes.as_slice(), COMPRESSION_LEVEL) {
        Ok(d) => d,
        Err(e) => {
            return Err(e);
        },
    };
    let name = chunk_file_name(prefix, index);
    Ok(Artifact { name, data })
}

} // verus!
