//! The manifest of a suite: its architectures, its components, and the
//! checksums of its index files.

use vstd::prelude::*;
use vstd::string::*;
use crate::deb_ext::{kv_lines_text, kv_text, WriteDebExt, LF, SP};
use crate::order::{
    ascending, holds, lemma_deep_insert, lemma_deep_update, lemma_insert_ascending,
    lemma_slot_bounds, lemma_update_ascending, locate, slot, Order, Ranked,
};
use crate::repo::deb::{
    lookup, parse_control, parsed, without, ControlError, ControlRecord, FieldView,
};
use crate::text::{
    append_bytes, compare_bytes, copy_bytes, decimal, digits_of, join_bytes, joined,
    lemma_lex_equal, lemma_lex_flip, lemma_lex_transitive, lex_rank, parse_unsigned,
    split_bytes, split_on, split_words, trim, trimmed, unsigned_value, words,
};

verus! {

/// The checksum of one index file.
#[derive(Debug)]
pub struct Checksum {
    /// The file's path, from the suite's directory.
    pub path: Vec<u8>,
    pub size: u64,
    /// The SHA-256 digest, in hexadecimal.
    pub hash: Vec<u8>,
}

/// What a checksum holds.
pub struct ChecksumView {
    pub path: Seq<u8>,
    pub size: u64,
    pub hash: Seq<u8>,
}

impl View for Checksum {
    type V = ChecksumView;

    open spec fn view(&self) -> ChecksumView {
        ChecksumView { path: self.path@, size: self.size, hash: self.hash@ }
    }
}

impl DeepView for Checksum {
    type V = ChecksumView;

    open spec fn deep_view(&self) -> ChecksumView {
        self@
    }
}

impl Ranked for Checksum {
    /// Checksums are ranked by the paths of their files.
    open spec fn rank(x: ChecksumView, y: ChecksumView) -> Order {
        lex_rank(x.path, y.path)
    }

    proof fn rank_reflexive(x: ChecksumView) {
        lemma_lex_equal(x.path, x.path);
    }

    proof fn rank_antisymmetric(x: ChecksumView, y: ChecksumView) {
        lemma_lex_flip(x.path, y.path);
    }

    proof fn rank_transitive(x: ChecksumView, y: ChecksumView, z: ChecksumView) {
        lemma_lex_transitive(x.path, y.path, z.path);
    }

    fn compare(&self, other: &Self) -> (o: Order) {
        compare_bytes(self.path.as_slice(), other.path.as_slice())
    }
}

/// The manifest of a suite.
#[derive(Debug)]
pub struct Release {
    pub codename: Vec<u8>,
    /// The architectures, ascending.
    pub architectures: Vec<Vec<u8>>,
    /// The components, ascending.
    pub components: Vec<Vec<u8>>,
    /// The checksums, ascending by path.
    pub sha256: Vec<Checksum>,
}

/// What a manifest holds.
pub struct ReleaseView {
    pub codename: Seq<u8>,
    pub architectures: Seq<Seq<u8>>,
    pub components: Seq<Seq<u8>>,
    pub sha256: Seq<ChecksumView>,
}

impl View for Release {
    type V = ReleaseView;

    open spec fn view(&self) -> ReleaseView {
        ReleaseView {
            codename: self.codename@,
            architectures: self.architectures.deep_view(),
            components: self.components.deep_view(),
            sha256: self.sha256.deep_view(),
        }
    }
}

impl DeepView for Release {
    type V = ReleaseView;

    open spec fn deep_view(&self) -> ReleaseView {
        self@
    }
}

/// Why a manifest could not be read.
#[derive(Clone, Copy, Debug, PartialEq, Eq, Structural)]
pub enum ReleaseFileRead {
    /// The text is no control file.
    Control(ControlError),
    /// A field that a manifest must have is absent.
    AbsentField(ReleaseField),
    /// The text holds no record, or more than one.
    ExcessiveControlData,
    /// A size among the checksums is no unsigned decimal number.
    FileSize,
    /// A line of the checksums does not hold a digest, a size and a path.
    InvalidHashLine,
}

/// The fields that a manifest must have.
#[derive(Clone, Copy, Debug, PartialEq, Eq, Structural)]
pub enum ReleaseField {
    Codename,
    Architectures,
    Components,
}

impl ReleaseField {
    /// The field's key.
    pub open spec fn key(self) -> Seq<u8> {
        match self {
            ReleaseField::Codename => "Codename".spec_bytes(),
            ReleaseField::Architectures => "Architectures".spec_bytes(),
            ReleaseField::Components => "Components".spec_bytes(),
        }
    }

    /// The field's key.
    pub fn name(&self) -> (r: &'static [u8])
        ensures
            r@ == self.key(),
    {
        match self {
            ReleaseField::Codename => "Codename".as_bytes(),
            ReleaseField::Architectures => "Architectures".as_bytes(),
            ReleaseField::Components => "Components".as_bytes(),
        }
    }
}

/// The ascending names `s` with `x` among them.
pub open spec fn with_name(s: Seq<Seq<u8>>, x: Seq<u8>) -> Seq<Seq<u8>> {
    if holds::<Vec<u8>>(s, x) {
        s
    } else {
        s.insert(slot::<Vec<u8>>(s, x), x)
    }
}

/// The ascending names `s` with all of `names` among them.
pub open spec fn with_names(s: Seq<Seq<u8>>, names: Seq<Seq<u8>>) -> Seq<Seq<u8>>
    decreases names.len(),
{
    if names.len() == 0 {
        s
    } else {
        with_name(with_names(s, names.drop_last()), names.last())
    }
}

/// The checksums `s` with `c` recorded: in the place of the one for its
/// path, or in its place in the order.
pub open spec fn with_checksum(s: Seq<ChecksumView>, c: ChecksumView) -> Seq<ChecksumView> {
    if holds::<Checksum>(s, c) {
        s.update(slot::<Checksum>(s, c), c)
    } else {
        s.insert(slot::<Checksum>(s, c), c)
    }
}

/// The checksums that the lines from `at` on add to `s`, or why a line is
/// none.  A line without anything but white space of ASCII is passed over; any
/// other must hold three words: the digest, the size and the path.
pub open spec fn with_hash_lines(s: Seq<ChecksumView>, lines: Seq<Seq<u8>>, at: int) -> Result<
    Seq<ChecksumView>,
    ReleaseFileRead,
>
    decreases lines.len() - at,
{
    if at < 0 || at >= lines.len() {
        Ok(s)
    } else {
        let w = words(lines[at]);
        if w.len() == 0 {
            with_hash_lines(s, lines, at + 1)
        } else if w.len() != 3 {
            Err(ReleaseFileRead::InvalidHashLine)
        } else {
            match unsigned_value(w[1]) {
                None => Err(ReleaseFileRead::FileSize),
                Some(size) => with_hash_lines(
                    with_checksum(s, ChecksumView { path: w[2], size, hash: w[0] }),
                    lines,
                    at + 1,
                ),
            }
        }
    }
}

/// The manifest that a record is, or why it is none.
pub open spec fn release_of_record(record: Seq<FieldView>) -> Result<ReleaseView, ReleaseFileRead> {
    let k1 = ReleaseField::Codename.key();
    let k2 = ReleaseField::Architectures.key();
    let k3 = ReleaseField::Components.key();
    let r1 = without(record, k1);
    let r2 = without(r1, k2);
    let r3 = without(r2, k3);
    if lookup(record, k1).is_none() {
        Err(ReleaseFileRead::AbsentField(ReleaseField::Codename))
    } else if lookup(r1, k2).is_none() {
        Err(ReleaseFileRead::AbsentField(ReleaseField::Architectures))
    } else if lookup(r2, k3).is_none() {
        Err(ReleaseFileRead::AbsentField(ReleaseField::Components))
    } else {
        let sums = match lookup(r3, "SHA256".spec_bytes()) {
            Some(v) => v,
            None => Seq::empty(),
        };
        match with_hash_lines(Seq::empty(), split_on(sums, LF), 0) {
            Err(e) => Err(e),
            Ok(sha256) => Ok(
                ReleaseView {
                    codename: lookup(record, k1).unwrap(),
                    architectures: with_names(Seq::empty(), words(lookup(r1, k2).unwrap())),
                    components: with_names(Seq::empty(), words(lookup(r2, k3).unwrap())),
                    sha256,
                },
            ),
        }
    }
}

/// The manifest that a text is, or why it is none: the text must be a
/// control file of one record.
pub open spec fn release_of_text(text: Seq<u8>) -> Result<ReleaseView, ReleaseFileRead> {
    match parsed(text) {
        Err(e) => Err(ReleaseFileRead::Control(e)),
        Ok(records) => if records.len() != 1 {
            Err(ReleaseFileRead::ExcessiveControlData)
        } else {
            release_of_record(records[0])
        },
    }
}

/// A manifest as it may be held: names and checksums ascend.
pub open spec fn release_wf(r: ReleaseView) -> bool {
    &&& ascending::<Vec<u8>>(r.architectures)
    &&& ascending::<Vec<u8>>(r.components)
    &&& ascending::<Checksum>(r.sha256)
}

/// The lines of the checksums, one for each: digest, size and path with a
/// space between.
pub open spec fn checksum_lines(s: Seq<ChecksumView>) -> Seq<Seq<u8>> {
    Seq::new(s.len(), |i: int| s[i].hash + seq![SP] + digits_of(10, s[i].size as nat) + seq![SP]
        + s[i].path)
}

/// The text of a manifest that bears the given date.
pub open spec fn release_text(r: ReleaseView, date: Seq<u8>) -> Seq<u8> {
    kv_text("Codename".spec_bytes(), r.codename) + kv_text("Date".spec_bytes(), date) + kv_text(
        "Architectures".spec_bytes(),
        joined(r.architectures, seq![SP]),
    ) + kv_text("Components".spec_bytes(), joined(r.components, seq![SP])) + kv_lines_text(
        "SHA256".spec_bytes(),
        checksum_lines(r.sha256),
    )
}

/// Puts a name among ascending names.
pub fn insert_name(names: &mut Vec<Vec<u8>>, name: Vec<u8>)
    requires
        ascending::<Vec<u8>>(old(names).deep_view()),
    ensures
        ascending::<Vec<u8>>(final(names).deep_view()),
        final(names).deep_view() == with_name(old(names).deep_view(), name@),
{
    proof {
        assert(name.deep_view() =~= name@);
    }
    let (p, found) = locate(names, &name);
    if !found {
        let ghost before = *names;
        names.insert(p, name);
        proof {
            lemma_deep_insert(before, *names, p as int, name);
            lemma_insert_ascending::<Vec<u8>>(before.deep_view(), name@);
        }
    }
}

/// Records a checksum among ascending checksums.
pub fn insert_checksum(sums: &mut Vec<Checksum>, sum: Checksum)
    requires
        ascending::<Checksum>(old(sums).deep_view()),
    ensures
        ascending::<Checksum>(final(sums).deep_view()),
        final(sums).deep_view() == with_checksum(old(sums).deep_view(), sum@),
{
    let (p, found) = locate(sums, &sum);
    let ghost before = *sums;
    if found {
        sums.set(p, sum);
        proof {
            lemma_deep_update(before, *sums, p as int, sum);
            lemma_update_ascending::<Checksum>(before.deep_view(), sum@);
        }
    } else {
        sums.insert(p, sum);
        proof {
            lemma_deep_insert(before, *sums, p as int, sum);
            lemma_insert_ascending::<Checksum>(before.deep_view(), sum@);
        }
    }
}

impl Release {
    /// Names and checksums ascend.
    pub open spec fn wf(&self) -> bool {
        release_wf(self@)
    }

    /// The manifest of a suite of which nothing is known but its name.
    pub fn new(codename: Vec<u8>) -> (r: Release)
        ensures
            r.wf(),
            r@ == (ReleaseView {
                codename: codename@,
                architectures: Seq::empty(),
                components: Seq::empty(),
                sha256: Seq::empty(),
            }),
    {
        let r = Release {
            codename,
            architectures: Vec::new(),
            components: Vec::new(),
            sha256: Vec::new(),
        };
        proof {
            assert(r@.architectures =~= Seq::<Seq<u8>>::empty());
            assert(r@.components =~= Seq::<Seq<u8>>::empty());
            assert(r@.sha256 =~= Seq::<ChecksumView>::empty());
        }
        r
    }

    /// Reads a manifest.
    pub fn read(text: &[u8]) -> (r: Result<Release, ReleaseFileRead>)
        ensures
            match r {
                Ok(release) => release.wf() && release_of_text(text@) == Ok::<
                    ReleaseView,
                    ReleaseFileRead,
                >(release@),
                Err(e) => release_of_text(text@) == Err::<ReleaseView, ReleaseFileRead>(e),
            },
    {
        let mut datas = match parse_control(text) {
            Ok(datas) => datas,
            Err(e) => {
                return Err(ReleaseFileRead::Control(e));
            },
        };
        if datas.len() != 1 {
            return Err(ReleaseFileRead::ExcessiveControlData);
        }
        let ghost record = datas@[0]@;
        let mut data = datas.remove(0);
        let codename = match data.remove(ReleaseField::Codename.name()) {
            Some(v) => v,
            None => {
                return Err(ReleaseFileRead::AbsentField(ReleaseField::Codename));
            },
        };
        let arch_text = match data.remove(ReleaseField::Architectures.name()) {
            Some(v) => v,
            None => {
                return Err(ReleaseFileRead::AbsentField(ReleaseField::Architectures));
            },
        };
        let comp_text = match data.remove(ReleaseField::Components.name()) {
            Some(v) => v,
            None => {
                return Err(ReleaseFileRead::AbsentField(ReleaseField::Components));
            },
        };
        let architectures = collect_names(split_words(arch_text.as_slice()));
        let components = collect_names(split_words(comp_text.as_slice()));
        let lines = match data.get("SHA256".as_bytes()) {
            Some(v) => split_bytes(v.as_slice(), LF),
            None => {
                let empty: Vec<u8> = Vec::new();
                split_bytes(empty.as_slice(), LF)
            },
        };
        let mut sha256: Vec<Checksum> = Vec::new();
        let ghost all = lines.deep_view();
        let mut i: usize = 0;
        proof {
            assert(sha256.deep_view() =~= Seq::<ChecksumView>::empty());
        }
        assert(release_of_text(text@) == match with_hash_lines(Seq::empty(), all, 0) {
            Err(e) => Err::<ReleaseView, ReleaseFileRead>(e),
            Ok(s) => Ok(
                ReleaseView {
                    codename: codename@,
                    architectures: architectures.deep_view(),
                    components: components.deep_view(),
                    sha256: s,
                },
            ),
        });
        while i < lines.len()
            invariant
                0 <= i <= lines.len(),
                all == lines.deep_view(),
                ascending::<Vec<u8>>(architectures.deep_view()),
                ascending::<Vec<u8>>(components.deep_view()),
                release_of_text(text@) == match with_hash_lines(Seq::empty(), all, 0) {
                    Err(e) => Err::<ReleaseView, ReleaseFileRead>(e),
                    Ok(s) => Ok(
                        ReleaseView {
                            codename: codename@,
                            architectures: architectures.deep_view(),
                            components: components.deep_view(),
                            sha256: s,
                        },
                    ),
                },
                ascending::<Checksum>(sha256.deep_view()),
                with_hash_lines(sha256.deep_view(), all, i as int) == with_hash_lines(
                    Seq::empty(),
                    all,
                    0,
                ),
            decreases lines.len() - i,
        {
            proof {
                assert(lines@[i as int].deep_view() =~= lines@[i as int]@);
            }
            let mut w = split_words(lines[i].as_slice());
            if w.len() != 0 {
                if w.len() != 3 {
                    return Err(ReleaseFileRead::InvalidHashLine);
                }
                proof {
                    assert(w@[0].deep_view() =~= w@[0]@);
                    assert(w@[1].deep_view() =~= w@[1]@);
                    assert(w@[2].deep_view() =~= w@[2]@);
                }
                let size = match parse_unsigned(w[1].as_slice()) {
                    Some(size) => size,
                    None => {
                        return Err(ReleaseFileRead::FileSize);
                    },
                };
                let path = w.remove(2);
                let hash = w.remove(0);
                insert_checksum(&mut sha256, Checksum { path, size, hash });
            }
            i += 1;
        }
        Ok(Release { codename, architectures, components, sha256 })
    }

    /// Writes the manifest, with the given date.
    pub fn output(&self, out: &mut Vec<u8>, date: &[u8])
        ensures
            final(out)@ == old(out)@ + release_text(self@, date@),
    {
        out.write_kv("Codename".as_bytes(), self.codename.as_slice());
        out.write_kv("Date".as_bytes(), date);
        let sep: [u8; 1] = [SP];
        proof {
            assert(sep@ =~= seq![SP]);
        }
        let archs = join_bytes(&self.architectures, sep.as_slice());
        out.write_kv("Architectures".as_bytes(), archs.as_slice());
        let comps = join_bytes(&self.components, sep.as_slice());
        out.write_kv("Components".as_bytes(), comps.as_slice());
        let mut lines: Vec<Vec<u8>> = Vec::new();
        let mut i: usize = 0;
        let ghost sums = self@.sha256;
        while i < self.sha256.len()
            invariant
                0 <= i <= self.sha256.len(),
                sums == self@.sha256,
                lines.deep_view() == checksum_lines(sums).subrange(0, i as int),
            decreases self.sha256.len() - i,
        {
            let mut line = copy_bytes(self.sha256[i].hash.as_slice());
            line.push(SP);
            let size = decimal(self.sha256[i].size);
            append_bytes(&mut line, size.as_slice());
            line.push(SP);
            append_bytes(&mut line, self.sha256[i].path.as_slice());
            let ghost before = lines.deep_view();
            lines.push(line);
            proof {
                assert(line.deep_view() =~= line@);
                assert(line@ =~= checksum_lines(sums)[i as int]);
                assert(lines.deep_view() =~= before.push(line@));
                assert(lines.deep_view() =~= checksum_lines(sums).subrange(0, i + 1));
            }
            i += 1;
        }
        proof {
            assert(checksum_lines(sums).subrange(0, sums.len() as int) =~= checksum_lines(sums));
        }
        out.write_kv_lines("SHA256".as_bytes(), &lines);
        proof {
            assert(out@ =~= old(out)@ + release_text(self@, date@));
        }
    }
}

/// The ascending names among which all of `names` are.
fn collect_names(names: Vec<Vec<u8>>) -> (r: Vec<Vec<u8>>)
    ensures
        ascending::<Vec<u8>>(r.deep_view()),
        r.deep_view() == with_names(Seq::empty(), names.deep_view()),
{
    let mut out: Vec<Vec<u8>> = Vec::new();
    let ghost all = names.deep_view();
    let mut i: usize = 0;
    proof {
        assert(out.deep_view() =~= Seq::<Seq<u8>>::empty());
        assert(all.subrange(0, 0) =~= Seq::<Seq<u8>>::empty());
    }
    while i < names.len()
        invariant
            0 <= i <= names.len(),
            all == names.deep_view(),
            ascending::<Vec<u8>>(out.deep_view()),
            out.deep_view() == with_names(Seq::empty(), all.subrange(0, i as int)),
        decreases names.len() - i,
    {
        let name = copy_bytes(names[i].as_slice());
        insert_name(&mut out, name);
        proof {
            let next = all.subrange(0, i + 1);
            assert(next.drop_last() =~= all.subrange(0, i as int));
            assert(names@[i as int].deep_view() =~= names@[i as int]@);
            assert(next.last() == names@[i as int]@);
        }
        i += 1;
    }
    proof {
        assert(all.subrange(0, all.len() as int) =~= all);
    }
    out
}

} // verus!
