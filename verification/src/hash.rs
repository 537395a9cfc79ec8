//! Employee records and the Jenkins one-at-a-time hash that keys them.

use vstd::prelude::*;
use vstd::utf8::encode_utf8;

use crate::decimal::{decimal, law_decimal_reads_back, push_decimal};
use crate::text::{free_of, lemma_split_concat, lemma_split_free, parse_u32, split};

verus! {

/// Addition modulo 2^32.
pub open spec fn add32(a: u32, b: u32) -> u32 {
    ((a as int + b as int) % 0x1_0000_0000) as u32
}

/// One round of the hash: fold a byte into the running state.
pub open spec fn mix_byte(h: u32, b: u8) -> u32 {
    let h1 = add32(h, b as u32);
    let h2 = add32(h1, h1 << 10u32);
    h2 ^ (h2 >> 6u32)
}

/// The running state after folding every byte of `bytes`, starting from 0.
pub open spec fn mix_bytes(bytes: Seq<u8>) -> u32
    decreases bytes.len(),
{
    if bytes.len() == 0 {
        0
    } else {
        mix_byte(mix_bytes(bytes.drop_last()), bytes.last())
    }
}

/// The final avalanche applied after the last byte.
pub open spec fn finish(h: u32) -> u32 {
    let h1 = add32(h, h << 3u32);
    let h2 = h1 ^ (h1 >> 11u32);
    add32(h2, h2 << 15u32)
}

/// Jenkins's one-at-a-time hash of a byte string.
pub open spec fn one_at_a_time(bytes: Seq<u8>) -> u32 {
    finish(mix_bytes(bytes))
}

/// The hash of a name: that of its UTF-8 encoding.
pub open spec fn name_hash(name: Seq<char>) -> u32 {
    one_at_a_time(encode_utf8(name))
}

/// A single record of the table.
#[derive(Clone, Debug)]
pub struct HashRecord {
    /// The hash of `name`.
    pub hash: u32,
    /// The key.
    pub name: String,
    /// Annual salary.
    pub salary: u32,
}

/// The text `<hash>,<name>,<salary>`.
pub open spec fn fields_text(hash: u32, name: Seq<char>, salary: u32) -> Seq<char> {
    decimal(hash as nat) + seq![','] + name + seq![','] + decimal(salary as nat)
}

/// The text of a record: `<hash>,<name>,<salary>`.
pub open spec fn record_text(r: HashRecord) -> Seq<char> {
    fields_text(r.hash, r.name@, r.salary)
}

/// Two records with the same fields.
pub open spec fn same_record(a: HashRecord, b: HashRecord) -> bool {
    a.hash == b.hash && a.name@ == b.name@ && a.salary == b.salary
}

/// A decimal form holds no comma.
pub proof fn lemma_decimal_free_of_comma(n: nat)
    ensures
        free_of(decimal(n), ','),
{
    law_decimal_reads_back(n);
}

/// The fields text reads back: split at commas it gives three pieces, the
/// hash, the name and the salary, as long as the name holds no comma.
pub proof fn law_fields_text_reads_back(hash: u32, name: Seq<char>, salary: u32)
    requires
        free_of(name, ','),
    ensures
        ({
            let p = split(fields_text(hash, name, salary), ',');
            &&& p.len() == 3
            &&& parse_u32(p[0]) == Some(hash)
            &&& p[1] == name
            &&& parse_u32(p[2]) == Some(salary)
        }),
{
    let a = decimal(hash as nat);
    let c = decimal(salary as nat);
    lemma_decimal_free_of_comma(hash as nat);
    lemma_decimal_free_of_comma(salary as nat);
    law_decimal_reads_back(hash as nat);
    law_decimal_reads_back(salary as nat);
    let rest = name + seq![','] + c;
    assert(fields_text(hash, name, salary) =~= a + seq![','] + rest);
    lemma_split_concat(a, rest, ',');
    lemma_split_concat(name, c, ',');
    lemma_split_free(a, ',');
    lemma_split_free(name, ',');
    lemma_split_free(c, ',');
    let p = split(fields_text(hash, name, salary), ',');
    assert(p =~= seq![a, name, c]);
}

/// The text of a record reads back as its hash, name and salary, as long as
/// the name holds no comma.
pub proof fn law_record_text_reads_back(r: HashRecord)
    requires
        free_of(r.name@, ','),
    ensures
        ({
            let p = split(record_text(r), ',');
            &&& p.len() == 3
            &&& parse_u32(p[0]) == Some(r.hash)
            &&& p[1] == r.name@
            &&& parse_u32(p[2]) == Some(r.salary)
        }),
{
    law_fields_text_reads_back(r.hash, r.name@, r.salary);
}

impl HashRecord {
    /// A record for `name` and `salary`, its hash computed from the name.
    pub fn new(name: &str, salary: u32) -> (r: HashRecord)
        ensures
            r.hash == name_hash(name@),
            r.name@ == name@,
            r.salary == salary,
    {
        let hash = jenkins_hash(name);
        HashRecord { hash, name: name.to_owned(), salary }
    }

    /// A field-by-field copy of the record.
    pub fn copy(&self) -> (r: HashRecord)
        ensures
            r == *self,
    {
        HashRecord { hash: self.hash, name: self.name.clone(), salary: self.salary }
    }

    /// The record as text: `<hash>,<name>,<salary>`.
    pub fn to_string(&self) -> (s: String)
        ensures
            s@ == record_text(*self),
    {
        let mut s = String::new();
        push_record(&mut s, self);
        s
    }
}

/// Appends the text of `r` to `out`.
pub fn push_record(out: &mut String, r: &HashRecord)
    ensures
        final(out)@ == old(out)@ + record_text(*r),
{
    let ghost start = out@;
    push_decimal(out, r.hash as u64);
    out.append(",");
    out.append(r.name.as_str());
    out.append(",");
    push_decimal(out, r.salary as u64);
    proof {
        reveal_strlit(",");
        assert(out@ =~= start + record_text(*r));
    }
}

/// The hash is Jenkins's one-at-a-time over the bytes as they are: the state
/// starts at 0 and takes in each byte unchanged, in order (add the byte, add
/// the state shifted left by 10, xor the state shifted right by 6, all modulo
/// 2^32); the hash then adds the state shifted left by 3, xors it with itself
/// shifted right by 11, and adds it shifted left by 15.
pub proof fn law_one_at_a_time_steps(s: Seq<u8>, b: u8)
    ensures
        mix_bytes(Seq::<u8>::empty()) == 0,
        ({
            let h = mix_bytes(s);
            let x = ((h as int + b as int) % 0x1_0000_0000) as u32;
            let y = ((x as int + (x << 10u32) as int) % 0x1_0000_0000) as u32;
            mix_bytes(s.push(b)) == y ^ (y >> 6u32)
        }),
        ({
            let h = mix_bytes(s);
            let x = ((h as int + (h << 3u32) as int) % 0x1_0000_0000) as u32;
            let y = x ^ (x >> 11u32);
            one_at_a_time(s) == ((y as int + (y << 15u32) as int) % 0x1_0000_0000) as u32
        }),
{
    assert(s.push(b).drop_last() =~= s);
}

proof fn lemma_add32(a: u32, b: u32)
    ensures
        vstd::wrapping::u32_specs::wrapping_add(a, b) == add32(a, b),
{
}

/// Computes Jenkins's one-at-a-time hash of the UTF-8 bytes of `name`.
pub fn jenkins_hash(name: &str) -> (h: u32)
    ensures
        h == name_hash(name@),
{
    let bytes = name.as_bytes();
    let mut hash: u32 = 0;
    let mut i: usize = 0;
    while i < bytes.len()
        invariant
            i <= bytes@.len(),
            bytes@ == encode_utf8(name@),
            hash == mix_bytes(bytes@.take(i as int)),
        decreases bytes@.len() - i,
    {
        let byte = bytes[i];
        proof {
            assert(bytes@.take(i + 1).drop_last() =~= bytes@.take(i as int));
            lemma_add32(hash, byte as u32);
        }
        hash = hash.wrapping_add(byte as u32);
        proof { lemma_add32(hash, hash << 10u32); }
        hash = hash.wrapping_add(hash.wrapping_shl(10));
        hash = hash ^ (hash >> 6);
        i = i + 1;
    }
    proof {
        assert(bytes@.take(i as int) =~= bytes@);
        lemma_add32(hash, hash << 3u32);
    }
    hash = hash.wrapping_add(hash.wrapping_shl(3));
    hash = hash ^ (hash >> 11);
    proof { lemma_add32(hash, hash << 15u32); }
    hash = hash.wrapping_add(hash.wrapping_shl(15));
    hash
}

} // verus!
