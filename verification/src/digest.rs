//! Hashes: the integrity hash of a set of files, and the hash that seeds a
//! group of files onto a shard.
use crate::model::{AddFileLite, DeltaError, FileModel, PartitionModel};
use crate::table::{list_active_files, TableSnapshot};
use crate::replay::target_model;
use vstd::prelude::*;
use vstd::utf8::encode_utf8;

verus! {

/// The BLAKE3 hash of `data`: what `blake3::hash` returns for it, as its 32
/// bytes.
pub uninterp spec fn blake3_digest(data: Seq<u8>) -> Seq<u8>;

/// `blake3::hash`: the default BLAKE3 hash of `data`, handed out as the 32
/// bytes of `blake3::Hash::as_bytes`. The contract only names the result.
#[verifier::external_body]
fn blake3_hash(data: &[u8]) -> (r: [u8; 32])
    ensures
        r@ == blake3_digest(data@),
{
    *blake3::hash(data).as_bytes()
}

/// The number that the first eight bytes of `digest` write, lowest byte
/// first.
pub open spec fn low_u64(digest: Seq<u8>) -> int {
    digest[0] as int + digest[1] as int * 0x100 + digest[2] as int * 0x1_0000 + digest[3] as int
        * 0x100_0000 + digest[4] as int * 0x1_0000_0000 + digest[5] as int * 0x100_0000_0000
        + digest[6] as int * 0x1_0000_0000_0000 + digest[7] as int * 0x100_0000_0000_0000
}

/// The bytes that stand for a list of pairs: each as its name, `=`, its
/// value and `;`.
pub open spec fn pairs_bytes(pairs: Seq<(Seq<char>, Seq<char>)>) -> Seq<u8>
    decreases pairs.len(),
{
    if pairs.len() == 0 {
        Seq::empty()
    } else {
        pairs_bytes(pairs.drop_last()) + encode_utf8(pairs.last().0) + seq![61u8] + encode_utf8(
            pairs.last().1,
        ) + seq![59u8]
    }
}

/// The hash of a list of pairs: the low 64 bits of the BLAKE3 hash of the
/// bytes that stand for it.
pub open spec fn spec_stable_hash(pairs: Seq<(Seq<char>, Seq<char>)>) -> int {
    low_u64(blake3_digest(pairs_bytes(pairs)))
}

/// Appends the bytes of `s` to `out`.
pub fn push_text(out: &mut Vec<u8>, s: &str)
    ensures
        final(out)@ == old(out)@ + encode_utf8(s@),
{
    let bytes = s.as_bytes();
    let ghost start = out@;
    let mut i: usize = 0;
    while i < bytes.len()
        invariant
            i <= bytes@.len(),
            bytes@ == encode_utf8(s@),
            out@ == start + bytes@.take(i as int),
        decreases bytes.len() - i,
    {
        out.push(bytes[i]);
        assert(bytes@.take(i + 1) =~= bytes@.take(i as int).push(bytes@[i as int]));
        i += 1;
    }
    assert(bytes@.take(i as int) =~= bytes@);
}

/// The low 64 bits of a hash, lowest byte first.
pub fn low_bits(digest: &[u8; 32]) -> (r: u64)
    ensures
        r as int == low_u64(digest@),
{
    let b0 = digest[0] as u64;
    let b1 = digest[1] as u64;
    let b2 = digest[2] as u64;
    let b3 = digest[3] as u64;
    let b4 = digest[4] as u64;
    let b5 = digest[5] as u64;
    let b6 = digest[6] as u64;
    let b7 = digest[7] as u64;
    b0 + b1 * 0x100 + b2 * 0x1_0000 + b3 * 0x100_0000 + b4 * 0x1_0000_0000 + b5 * 0x100_0000_0000 + b6
        * 0x1_0000_0000_0000 + b7 * 0x100_0000_0000_0000
}

/// The hash by which a group of files is seeded onto a shard.
pub fn stable_hash(parts: &Vec<(String, String)>) -> (r: u64)
    ensures
        r as int == spec_stable_hash(parts.deep_view()),
{
    let ghost pm = parts.deep_view();
    let mut data: Vec<u8> = Vec::new();
    let mut i: usize = 0;
    while i < parts.len()
        invariant
            i <= parts@.len(),
            pm == parts.deep_view(),
            data@ == pairs_bytes(pm.take(i as int)),
        decreases parts.len() - i,
    {
        proof {
            assert(pm.take(i + 1).drop_last() =~= pm.take(i as int));
            assert(pm.take(i + 1).last() == (parts@[i as int].0@, parts@[i as int].1@));
        }
        push_text(&mut data, parts[i].0.as_str());
        data.push(61u8);
        push_text(&mut data, parts[i].1.as_str());
        data.push(59u8);
        i += 1;
    }
    assert(pm.take(i as int) =~= pm);
    let digest = blake3_hash(data.as_slice());
    low_bits(&digest)
}

/// The eight bytes of a 64-bit number, lowest first.
pub open spec fn le_bytes(u: int, n: nat) -> Seq<u8>
    decreases n,
{
    if n == 0 {
        Seq::empty()
    } else {
        seq![(u % 256) as u8] + le_bytes(u / 256, (n - 1) as nat)
    }
}

/// The eight bytes of a size in two's complement, lowest first.
pub open spec fn size_bytes(size: int) -> Seq<u8> {
    le_bytes(
        if size >= 0 {
            size
        } else {
            size + 0x1_0000_0000_0000_0000
        },
        8,
    )
}

/// The bytes that stand for partition values: each name, followed by its
/// value where it has one.
pub open spec fn partition_bytes(pv: PartitionModel) -> Seq<u8>
    decreases pv.len(),
{
    if pv.len() == 0 {
        Seq::empty()
    } else {
        partition_bytes(pv.drop_last()) + encode_utf8(pv.last().0) + match pv.last().1 {
            Some(v) => encode_utf8(v),
            None => Seq::empty(),
        }
    }
}

/// The bytes that stand for a file: its path, its size, its partition
/// values.
pub open spec fn file_bytes(f: FileModel) -> Seq<u8> {
    encode_utf8(f.path) + size_bytes(f.size) + partition_bytes(f.partition_values)
}

/// The bytes that stand for a list of files, in its order.
pub open spec fn files_bytes(files: Seq<FileModel>) -> Seq<u8>
    decreases files.len(),
{
    if files.len() == 0 {
        Seq::empty()
    } else {
        files_bytes(files.drop_last()) + file_bytes(files.last())
    }
}

pub open spec fn hex_digit(n: int) -> char {
    if n == 0 {
        '0'
    } else if n == 1 {
        '1'
    } else if n == 2 {
        '2'
    } else if n == 3 {
        '3'
    } else if n == 4 {
        '4'
    } else if n == 5 {
        '5'
    } else if n == 6 {
        '6'
    } else if n == 7 {
        '7'
    } else if n == 8 {
        '8'
    } else if n == 9 {
        '9'
    } else if n == 10 {
        'a'
    } else if n == 11 {
        'b'
    } else if n == 12 {
        'c'
    } else if n == 13 {
        'd'
    } else if n == 14 {
        'e'
    } else {
        'f'
    }
}

/// The lowercase hexadecimal text of `bytes`, two digits a byte.
pub open spec fn hex_text(bytes: Seq<u8>) -> Seq<char>
    decreases bytes.len(),
{
    if bytes.len() == 0 {
        Seq::empty()
    } else {
        hex_text(bytes.drop_last()) + seq![hex_digit(bytes.last() as int / 16), hex_digit(bytes.last() as int % 16)]
    }
}

/// The integrity hash of a list of files.
pub open spec fn spec_integrity_hash(files: Seq<FileModel>) -> Seq<char> {
    hex_text(blake3_digest(files_bytes(files)))
}

/// The hexadecimal digit of a number below sixteen, as a text; `f` for any
/// greater number.
pub fn hex_digit_text(n: u8) -> (r: &'static str)
    ensures
        r@ == seq![hex_digit(n as int)],
{
    proof {
        reveal_strlit("0");
        reveal_strlit("1");
        reveal_strlit("2");
        reveal_strlit("3");
        reveal_strlit("4");
        reveal_strlit("5");
        reveal_strlit("6");
        reveal_strlit("7");
        reveal_strlit("8");
        reveal_strlit("9");
        reveal_strlit("a");
        reveal_strlit("b");
        reveal_strlit("c");
        reveal_strlit("d");
        reveal_strlit("e");
        reveal_strlit("f");
    }
    let r = if n == 0 {
        "0"
    } else if n == 1 {
        "1"
    } else if n == 2 {
        "2"
    } else if n == 3 {
        "3"
    } else if n == 4 {
        "4"
    } else if n == 5 {
        "5"
    } else if n == 6 {
        "6"
    } else if n == 7 {
        "7"
    } else if n == 8 {
        "8"
    } else if n == 9 {
        "9"
    } else if n == 10 {
        "a"
    } else if n == 11 {
        "b"
    } else if n == 12 {
        "c"
    } else if n == 13 {
        "d"
    } else if n == 14 {
        "e"
    } else {
        "f"
    };
    assert(r@ =~= seq![hex_digit(n as int)]);
    r
}

/// The lowercase hexadecimal text of `bytes`.
pub fn to_hex(bytes: &[u8]) -> (r: String)
    ensures
        r@ == hex_text(bytes@),
{
    let mut r = String::new();
    let mut i: usize = 0;
    while i < bytes.len()
        invariant
            i <= bytes@.len(),
            r@ == hex_text(bytes@.take(i as int)),
        decreases bytes.len() - i,
    {
        let b = bytes[i];
        proof {
            assert(bytes@.take(i + 1).drop_last() =~= bytes@.take(i as int));
        }
        let ghost before = r@;
        r.append(hex_digit_text(b / 16));
        r.append(hex_digit_text(b % 16));
        assert(r@ =~= before + seq![hex_digit(b as int / 16), hex_digit(b as int % 16)]);
        i += 1;
    }
    assert(bytes@.take(i as int) =~= bytes@);
    r
}

/// Appends the eight bytes of `size` to `out`, lowest first.
pub fn push_size(out: &mut Vec<u8>, size: i64)
    ensures
        final(out)@ == old(out)@ + size_bytes(size as int),
{
    let ghost start = out@;
    let u0: u64 = if size >= 0 {
        size as u64
    } else {
        ((size + 9223372036854775807) + 1) as u64 + 9223372036854775808
    };
    let ghost v0: int = if size >= 0 {
        size as int
    } else {
        size + 0x1_0000_0000_0000_0000
    };
    assert(u0 as int == v0);
    let mut u = u0;
    let mut i: usize = 0;
    while i < 8
        invariant
            i <= 8,
            out@ + le_bytes(u as int, (8 - i) as nat) == start + le_bytes(v0, 8),
        decreases 8 - i,
    {
        let ghost before = out@;
        out.push((u % 256) as u8);
        proof {
            assert(before + le_bytes(u as int, (8 - i) as nat) =~= before.push((u % 256) as u8) + le_bytes(
                u as int / 256,
                (8 - i - 1) as nat,
            ));
        }
        u = u / 256;
        i += 1;
    }
    assert(out@ + le_bytes(u as int, 0) =~= out@);
}

/// Appends the bytes that stand for `f` to `out`.
pub fn push_file(out: &mut Vec<u8>, f: &AddFileLite)
    ensures
        final(out)@ == old(out)@ + file_bytes(f@),
{
    let ghost start = out@;
    push_text(out, f.path.as_str());
    push_size(out, f.size);
    let ghost head = out@;
    let ghost pm = f.partition_values.deep_view();
    let mut i: usize = 0;
    while i < f.partition_values.len()
        invariant
            i <= f.partition_values@.len(),
            pm == f.partition_values.deep_view(),
            out@ == head + partition_bytes(pm.take(i as int)),
        decreases f.partition_values.len() - i,
    {
        proof {
            assert(pm.take(i + 1).drop_last() =~= pm.take(i as int));
            assert(pm.take(i + 1).last() == (
                f.partition_values@[i as int].0@,
                f.partition_values@[i as int].1.deep_view(),
            ));
        }
        let ghost before = out@;
        push_text(out, f.partition_values[i].0.as_str());
        match &f.partition_values[i].1 {
            Some(v) => {
                push_text(out, v.as_str());
            },
            None => {
                assert(out@ =~= out@ + Seq::<u8>::empty());
            },
        }
        i += 1;
    }
    assert(pm.take(i as int) =~= pm);
    assert(out@ =~= start + file_bytes(f@));
}

/// The integrity hash of a list of files: the BLAKE3 hash, in lowercase
/// hexadecimal, of the bytes that stand for the files in their order.
pub fn hash_files(files: &Vec<AddFileLite>) -> (r: String)
    ensures
        r@ == spec_integrity_hash(files.deep_view()),
{
    let ghost fm = files.deep_view();
    let mut data: Vec<u8> = Vec::new();
    let mut i: usize = 0;
    while i < files.len()
        invariant
            i <= files@.len(),
            fm == files.deep_view(),
            data@ == files_bytes(fm.take(i as int)),
        decreases files.len() - i,
    {
        proof {
            assert(fm.take(i + 1).drop_last() =~= fm.take(i as int));
            assert(fm.take(i + 1).last() == files@[i as int]@);
        }
        push_file(&mut data, &files[i]);
        i += 1;
    }
    assert(fm.take(i as int) =~= fm);
    let digest = blake3_hash(data.as_slice());
    to_hex(digest.as_slice())
}

/// The integrity hash of the table's active files at `version`, or at the
/// end of its log.
pub fn compute_integrity_hash(t: &TableSnapshot, version: Option<i64>) -> (r: Result<String, DeltaError>)
    ensures
        match r {
            Ok(hash) => t.replay_error(target_model(version)) is None && hash@ == spec_integrity_hash(
                t.files_at(target_model(version)),
            ),
            Err(e) => t.replay_error(target_model(version)) == Some(e),
        },
{
    match list_active_files(t, version) {
        Ok(files) => Ok(hash_files(&files)),
        Err(e) => Err(e),
    }
}

} // verus!
