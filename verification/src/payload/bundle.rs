//! Bundle reader and writer. Streams; never holds a payload file in memory.
//!
//! The two directions are shaped by who drives them. Hide *pulls* the bundle through [`BundleReader`], a
//! [`Read`] that the encryptor consumes directly. Reveal *pushes* the decrypted stream through
//! [`read_bundle`], which writes each file as its bytes arrive.

use super::manifest::{
    content_len, encode_fault, encoded, items, lemma_parsed_len, manifest_encoding_is_unique,
    manifest_round_trips, mime_for, name_mime, parsed, whole_len, Entry, Item, Manifest, MAX_MANIFEST_LEN,
};
use super::names::{
    answered, candidate, lemma_byte_len, numbered_names_are_safe, safe, safe_name, safe_names_are_safe,
    storable, unique_name,
};
use crate::bytes::{
    le_bytes, le_number, le_value, lemma_le_bound, lemma_le_bytes_len, lemma_le_round_trip,
    lemma_pow256, push_le,
};
use crate::error::{ended_early, unwrapped, Fault, IoError, IoErrorKind, ZolalError};
use crate::io::{read_exact, BytesReader, Read, COPY_BLOCK};
use crate::text::{append_decimal, decimal_text, same_text};
use vstd::prelude::*;
use vstd::utf8::{decode_utf8, encode_utf8};

verus! {

// ---------------------------------------------------------------------------------------------
// Planning

/// What is known of a file before it is read.
#[derive(Debug)]
pub struct PayloadFile {
    /// How messages speak of it: its path.
    pub label: String,
    /// Its name, if the path ends in one.
    pub name: Option<String>,
    /// Whether it is a regular file.
    pub is_file: bool,
    /// Its length.
    pub len: u64,
}

/// Why no manifest can be made of these files, if none can.
pub open spec fn plan_fault(files: Seq<PayloadFile>, n: nat) -> Option<Fault>
    decreases n,
{
    if n == 0 {
        if files.len() == 0 {
            Some(Fault::InvalidRequest("no payload files given"@))
        } else {
            None
        }
    } else {
        let f = files[n - 1];
        match plan_fault(files, (n - 1) as nat) {
            Some(fault) => Some(fault),
            None => if !f.is_file {
                Some(Fault::InvalidRequest("not a regular file: "@ + f.label@))
            } else if f.name is None {
                Some(Fault::InvalidRequest("no file name: "@ + f.label@))
            } else {
                None
            },
        }
    }
}

/// The manifest entry for a file.
pub open spec fn planned_item(f: PayloadFile) -> Item {
    Item {
        name: encode_utf8(f.name->Some_0@),
        mime: encode_utf8(name_mime(f.name->Some_0@)),
        len: f.len as nat,
    }
}

/// Build the manifest for files without reading their contents.
pub fn plan(files: &Vec<PayloadFile>) -> (r: Result<Manifest, ZolalError>)
    ensures
        match r {
            Ok(m) => plan_fault(files@, files@.len()) is None && m.items() == files@.map_values(
                |f: PayloadFile| planned_item(f),
            ),
            Err(e) => plan_fault(files@, files@.len()) == Some(e@),
        },
{
    if files.len() == 0 {
        return Err(ZolalError::InvalidRequest("no payload files given".to_owned()));
    }
    let mut entries: Vec<Entry> = Vec::new();
    let mut i: usize = 0;
    let ghost all = files@.map_values(|f: PayloadFile| planned_item(f));
    assert(items(entries@) =~= all.take(0));
    while i < files.len()
        invariant
            files@.len() > 0,
            i <= files@.len(),
            all == files@.map_values(|f: PayloadFile| planned_item(f)),
            plan_fault(files@, i as nat) is None,
            items(entries@) == all.take(i as int),
        decreases files@.len() - i,
    {
        let f = &files[i];
        if !f.is_file {
            let mut text = "not a regular file: ".to_owned();
            text.append(f.label.as_str());
            proof {
                lemma_plan_fault(files@, (i + 1) as nat, files@.len());
            }
            return Err(ZolalError::InvalidRequest(text));
        }
        match &f.name {
            None => {
                let mut text = "no file name: ".to_owned();
                text.append(f.label.as_str());
                proof {
                    lemma_plan_fault(files@, (i + 1) as nat, files@.len());
                }
                return Err(ZolalError::InvalidRequest(text));
            },
            Some(name) => {
                let mime = mime_for(name.as_str()).to_owned();
                let ghost before = items(entries@);
                let entry = Entry { name: name.as_str().to_owned(), mime, len: f.len };
                let ghost item = entry.item();
                entries.push(entry);
                proof {
                    assert(items(entries@) =~= before.push(item));
                    assert(item == planned_item(files@[i as int]));
                    assert(items(entries@) =~= all.take(i + 1));
                }
            },
        }
        i = i + 1;
    }
    assert(all.take(i as int) =~= all);
    Ok(Manifest { entries })
}

proof fn lemma_plan_fault(files: Seq<PayloadFile>, k: nat, n: nat)
    requires
        k <= n,
        plan_fault(files, k) is Some,
    ensures
        plan_fault(files, n) == plan_fault(files, k),
    decreases n,
{
    if k < n {
        lemma_plan_fault(files, k, (n - 1) as nat);
    }
}

// ---------------------------------------------------------------------------------------------
// Pulling a bundle together

/// The files of a payload, opened one at a time.
pub trait Payloads {
    /// An open file.
    type File: Read;

    /// What the file of a given index holds.
    open spec fn bytes(&self, index: int) -> Seq<u8> {
        Seq::empty()
    }

    /// Whether every file can be opened and read.
    open spec fn reliable(&self) -> bool {
        false
    }

    /// Open the file of a given index.
    fn open(&self, index: usize) -> (r: Result<Self::File, IoError>)
        ensures
            r matches Ok(file) ==> file.remaining() == self.bytes(index as int) && file.ending() is None
                && (self.reliable() ==> file.reliable()),
            r is Err ==> !self.reliable(),
    ;
}

/// Files in memory.
#[derive(Debug)]
pub struct MemoryPayloads {
    /// What they hold.
    pub files: Vec<Vec<u8>>,
}

impl Payloads for MemoryPayloads {
    type File = BytesReader;

    open spec fn bytes(&self, index: int) -> Seq<u8> {
        if 0 <= index < self.files@.len() {
            self.files@[index]@
        } else {
            Seq::empty()
        }
    }

    open spec fn reliable(&self) -> bool {
        true
    }

    fn open(&self, index: usize) -> (r: Result<BytesReader, IoError>) {
        let mut bytes: Vec<u8> = Vec::new();
        if index < self.files.len() {
            bytes = vstd::slice::slice_to_vec(self.files[index].as_slice());
        }
        assert(bytes@ =~= self.bytes(index as int));
        Ok(BytesReader::new(bytes))
    }
}

/// The error for a file that changed while it was being hidden.
pub open spec fn changed(label: Seq<char>, how: Seq<char>) -> Fault {
    Fault::InvalidRequest(label + " "@ + how + " while it was being hidden"@)
}

/// A file that should have `len` bytes, and what follows it.
pub open spec fn then_file(
    bytes: Seq<u8>,
    end: Option<Fault>,
    len: nat,
    label: Seq<char>,
    rest: (Seq<u8>, Option<Fault>),
) -> (Seq<u8>, Option<Fault>) {
    if bytes.len() < len {
        (
            bytes,
            Some(
                match end {
                    Some(fault) => fault,
                    None => changed(label, "shrank"@),
                },
            ),
        )
    } else if bytes.len() > len {
        (bytes.take(len as int), Some(changed(label, "grew"@)))
    } else if end is Some {
        (bytes, end)
    } else {
        (bytes + rest.0, rest.1)
    }
}

/// What the files from `index` on come to, and how that ends.
pub open spec fn files_from<P: Payloads>(
    payloads: &P,
    list: Seq<Entry>,
    labels: Seq<String>,
    index: nat,
) -> (Seq<u8>, Option<Fault>)
    decreases list.len() - index,
{
    if index >= list.len() {
        (Seq::empty(), None)
    } else {
        then_file(
            payloads.bytes(index as int),
            None,
            list[index as int].len as nat,
            labels[index as int]@,
            files_from(payloads, list, labels, index + 1),
        )
    }
}

/// The bytes before the first file.
pub open spec fn bundle_prefix(list: Seq<Item>) -> Seq<u8> {
    le_bytes(encoded(list).len(), 4) + encoded(list)
}

/// The bundle as a [`Read`]: length prefix, manifest, then each file's bytes in order.
///
/// Files are opened one at a time as the reader reaches them. Each must still be exactly the length that
/// the manifest says, because the envelope size was committed from that number. A file that shrank or
/// grew in between is an error, never a silently wrong bundle.
pub struct BundleReader<'a, P: Payloads> {
    prefix: Vec<u8>,
    pos: usize,
    labels: Vec<String>,
    payloads: &'a P,
    manifest: Manifest,
    index: usize,
    current: Option<P::File>,
    left: u64,
}

impl<'a, P: Payloads> BundleReader<'a, P> {
    spec fn wf(&self) -> bool {
        &&& self.pos <= self.prefix@.len()
        &&& self.labels@.len() == self.manifest.entries@.len()
        &&& self.current is Some ==> self.index < self.labels@.len()
    }

    spec fn later(&self) -> (Seq<u8>, Option<Fault>) {
        match self.current {
            Some(file) => then_file(
                file.remaining(),
                file.ending(),
                self.left as nat,
                self.labels@[self.index as int]@,
                files_from(
                    self.payloads,
                    self.manifest.entries@,
                    self.labels@,
                    (self.index + 1) as nat,
                ),
            ),
            None => files_from(
                self.payloads,
                self.manifest.entries@,
                self.labels@,
                self.index as nat,
            ),
        }
    }

    spec fn readable(&self) -> bool {
        self.payloads.reliable() && (self.current is Some ==> self.current->Some_0.reliable())
    }

    spec fn coming(&self) -> (Seq<u8>, Option<Fault>) {
        if self.wf() {
            (self.prefix@.skip(self.pos as int) + self.later().0, self.later().1)
        } else {
            (Seq::empty(), None)
        }
    }

    /// The entries of the manifest.
    pub closed spec fn entries(&self) -> Seq<Entry> {
        self.manifest.entries@
    }

    /// Prepare to stream `payloads`, described by `manifest` and called `labels` in messages.
    pub fn new(labels: Vec<String>, payloads: &'a P, manifest: Manifest) -> (r: Result<Self, ZolalError>)
        ensures
            match r {
                Ok(reader) => {
                    let files = files_from(payloads, manifest.entries@, labels@, 0);
                    &&& labels@.len() == manifest.entries@.len()
                    &&& encode_fault(manifest.entries@) is None
                    &&& reader.remaining() == bundle_prefix(manifest.items()) + files.0
                    &&& reader.ending() == files.1
                    &&& reader.reliable() == payloads.reliable()
                    &&& reader.entries() == manifest.entries@
                },
                Err(e) => if labels@.len() != manifest.entries@.len() {
                    e@ == Fault::InvalidRequest("manifest does not match the payload list"@)
                } else {
                    encode_fault(manifest.entries@) == Some(e@)
                },
            },
    {
        if labels.len() != manifest.entries.len() {
            return Err(
                ZolalError::InvalidRequest("manifest does not match the payload list".to_owned()),
            );
        }
        let mut bytes = manifest.encode()?;
        let mut prefix: Vec<u8> = Vec::new();
        push_le(&mut prefix, bytes.len() as u64, 4);
        prefix.append(&mut bytes);
        assert(prefix@ =~= bundle_prefix(manifest.items()));
        let reader = BundleReader {
            prefix,
            pos: 0,
            labels,
            payloads,
            manifest,
            index: 0,
            current: None,
            left: 0,
        };
        assert(reader.prefix@.skip(0) =~= reader.prefix@);
        Ok(reader)
    }

    /// Total bytes this reader will produce.
    pub fn len(&self) -> (r: u64)
        requires
            whole_len(items(self.entries())) <= u64::MAX,
        ensures
            r == whole_len(items(self.entries())),
    {
        self.manifest.bundle_len()
    }

    /// Whether [`BundleReader::len`] is zero. It never is: the prefix alone is 8 bytes.
    pub fn is_empty(&self) -> (r: bool)
        ensures
            r == (whole_len(items(self.entries())) == 0),
    {
        false
    }

    fn changed(&self, how: &str) -> (r: IoError)
        requires
            self.index < self.labels@.len(),
        ensures
            unwrapped(r)@ == changed(self.labels@[self.index as int]@, how@),
    {
        let mut text = self.labels[self.index].as_str().to_owned();
        text.append(" ");
        text.append(how);
        text.append(" while it was being hidden");
        ZolalError::InvalidRequest(text).into_io()
    }

    /// Some of the bytes behind the prefix.
    fn read_files(&mut self, max: usize) -> (r: Result<Vec<u8>, IoError>)
        requires
            old(self).wf(),
            max > 0,
        ensures
            final(self).prefix == old(self).prefix,
            final(self).pos == old(self).pos,
            final(self).payloads == old(self).payloads,
            final(self).manifest == old(self).manifest,
            final(self).labels == old(self).labels,
            old(self).readable() ==> final(self).readable(),
            r matches Ok(bytes) ==> {
                &&& final(self).wf()
                &&& bytes@.len() <= max
                &&& bytes@.len() <= old(self).later().0.len()
                &&& bytes@ == old(self).later().0.take(bytes@.len() as int)
                &&& final(self).later().0 == old(self).later().0.skip(bytes@.len() as int)
                &&& final(self).later().1 == old(self).later().1
                &&& bytes@.len() == 0 ==> old(self).later().0.len() == 0 && old(self).later().1 is None
            },
            r matches Err(e) ==> old(self).readable() ==> {
                &&& old(self).later().0.len() == 0
                &&& old(self).later().1 == Some(unwrapped(e)@)
            },
    {
        let ghost all = self.later();
        let count: usize = self.labels.len();
        loop
            invariant
                self.wf(),
                max > 0,
                count == self.labels@.len(),
                all == old(self).later(),
                self.later() == all,
                self.prefix == old(self).prefix,
                self.pos == old(self).pos,
                self.payloads == old(self).payloads,
                self.manifest == old(self).manifest,
                self.labels == old(self).labels,
                old(self).readable() ==> self.readable(),
            decreases self.labels@.len() - self.index, (if self.current is None { 1int } else { 0int }),
        {
            if self.current.is_some() {
                let want: usize = if self.left == 0 {
                    1
                } else if self.left < max as u64 {
                    self.left as usize
                } else {
                    max
                };
                let ghost before = self.current->Some_0;
                let ghost rest = files_from(
                    self.payloads,
                    self.manifest.entries@,
                    self.labels@,
                    (self.index + 1) as nat,
                );
                let mut file = match self.current.take() {
                    Some(file) => file,
                    None => {
                        return Ok(Vec::new());
                    },
                };
                let got = file.read(want);
                self.current = Some(file);
                let bytes = got?;
                if self.left > 0 {
                    if bytes.len() == 0 {
                        return Err(self.changed("shrank"));
                    }
                    self.left = self.left - bytes.len() as u64;
                    proof {
                        let a = before.remaining();
                        let n = bytes@.len() as int;
                        assert(bytes@ =~= all.0.take(n));
                        assert(self.later().0 =~= all.0.skip(n));
                    }
                    return Ok(bytes);
                }
                if bytes.len() > 0 {
                    return Err(self.changed("grew"));
                }
                self.current = None;
                self.index = self.index + 1;
                assert(before.remaining() + rest.0 =~= rest.0);
            } else if self.index < self.labels.len() {
                let file = self.payloads.open(self.index)?;
                self.left = self.manifest.entries[self.index].len;
                self.current = Some(file);
            } else {
                assert(all.0.take(0) =~= Seq::<u8>::empty());
                assert(all.0.skip(0) =~= all.0);
                return Ok(Vec::new());
            }
        }
    }
}

impl<'a, P: Payloads> Read for BundleReader<'a, P> {
    closed spec fn remaining(&self) -> Seq<u8> {
        self.coming().0
    }

    closed spec fn ending(&self) -> Option<Fault> {
        self.coming().1
    }

    closed spec fn reliable(&self) -> bool {
        self.readable()
    }

    fn read(&mut self, max: usize) -> (r: Result<Vec<u8>, IoError>) {
        let ghost all = self.coming().0;
        let sane = self.pos <= self.prefix.len() && self.labels.len() == self.manifest.entries.len()
            && (self.current.is_none() || self.index < self.labels.len());
        if max == 0 || !sane {
            assert(all.take(0) =~= Seq::<u8>::empty());
            assert(all.skip(0) =~= all);
            return Ok(Vec::new());
        }
        let left: usize = self.prefix.len() - self.pos;
        if left > 0 {
            let n: usize = if left < max { left } else { max };
            let out = vstd::slice::slice_to_vec(
                vstd::slice::slice_subrange(self.prefix.as_slice(), self.pos, self.pos + n),
            );
            self.pos = self.pos + n;
            assert(out@ =~= all.take(n as int));
            assert(self.coming().0 =~= all.skip(n as int));
            return Ok(out);
        }
        proof {
            assert(self.prefix@.skip(self.pos as int) =~= Seq::<u8>::empty());
            assert(all =~= self.later().0);
        }
        let bytes = self.read_files(max)?;
        assert(self.coming().0 =~= self.later().0);
        Ok(bytes)
    }
}

/// All the files back to back.
pub open spec fn concatenated(parts: Seq<Seq<u8>>) -> Seq<u8>
    decreases parts.len(),
{
    if parts.len() == 0 {
        Seq::empty()
    } else {
        parts[0] + concatenated(parts.skip(1))
    }
}

/// A bundle: length prefix, manifest, then every file's bytes.
pub open spec fn bundle(list: Seq<Item>, parts: Seq<Seq<u8>>) -> Seq<u8> {
    bundle_prefix(list) + concatenated(parts)
}

/// Files that are as long as the manifest says.
pub open spec fn parts_match(list: Seq<Item>, parts: Seq<Seq<u8>>) -> bool {
    &&& list.len() == parts.len()
    &&& forall|i: int| 0 <= i < parts.len() ==> (#[trigger] parts[i]).len() == list[i].len
}

/// Files that are still as long as the manifest says come out whole, one after the other.
pub proof fn unchanged_files_make_a_bundle<P: Payloads>(
    payloads: &P,
    list: Seq<Entry>,
    labels: Seq<String>,
    parts: Seq<Seq<u8>>,
    index: nat,
)
    requires
        parts_match(items(list), parts),
        index <= parts.len(),
        forall|i: int| 0 <= i < parts.len() ==> payloads.bytes(i) == #[trigger] parts[i],
    ensures
        files_from(payloads, list, labels, index) == (
            concatenated(parts.skip(index as int)),
            None::<Fault>,
        ),
    decreases parts.len() - index,
{
    if index < parts.len() {
        unchanged_files_make_a_bundle(payloads, list, labels, parts, index + 1);
        let here = parts.skip(index as int);
        assert(here[0] == parts[index as int]);
        assert(here.skip(1) =~= parts.skip(index as int + 1));
        assert(items(list)[index as int].len == list[index as int].len);
    } else {
        assert(parts.skip(index as int) =~= Seq::<Seq<u8>>::empty());
    }
}

proof fn lemma_concatenated_len(list: Seq<Item>, parts: Seq<Seq<u8>>)
    requires
        parts_match(list, parts),
    ensures
        concatenated(parts).len() == content_len(list),
    decreases parts.len(),
{
    if parts.len() > 0 {
        let rest = list.drop_first();
        let more = parts.skip(1);
        assert(forall|i: int| 0 <= i < more.len() ==> more[i] == parts[i + 1]);
        assert(forall|i: int| 0 <= i < rest.len() ==> rest[i] == list[i + 1]);
        lemma_concatenated_len(rest, more);
        super::manifest::lemma_items_front(list);
        assert(parts[0].len() == list[0].len);
    }
}

/// A bundle is exactly as long as [`Manifest::bundle_len`] says.
pub proof fn bundle_len_is_exact(m: Manifest, parts: Seq<Seq<u8>>)
    requires
        parts_match(m.items(), parts),
        encode_fault(m.entries@) is None,
        content_len(m.items()) <= u64::MAX,
    ensures
        bundle(m.items(), parts).len() == whole_len(m.items()),
{
    manifest_round_trips(m);
    lemma_concatenated_len(m.items(), parts);
    lemma_le_bytes_len(encoded(m.items()).len(), 4);
}

// ---------------------------------------------------------------------------------------------
// Taking a bundle apart

/// What `str::to_lowercase` makes of a text.
pub uninterp spec fn lowercase_text(text: Seq<char>) -> Seq<char>;

/// An ASCII letter in lower case, anything else as it is.
pub open spec fn ascii_low(c: char) -> char {
    if 'A' <= c <= 'Z' {
        (c as u8 + 32) as char
    } else {
        c
    }
}

/// Calls `str::to_lowercase`, which depends on the text alone. In ASCII text it changes the capital
/// letters and nothing else.
#[verifier::external_body]
fn lowercase(text: &str) -> (r: String)
    ensures
        r@ == lowercase_text(text@),
        vstd::utf8::is_ascii_chars(text@) ==> r@ == text@.map_values(|c: char| ascii_low(c)),
{
    text.to_lowercase()
}

/// A text with its case left out of account: two names clash where this is the same.
pub open spec fn folded(text: Seq<char>) -> Seq<char> {
    if vstd::utf8::is_ascii_chars(text) {
        text.map_values(|c: char| ascii_low(c))
    } else {
        lowercase_text(text)
    }
}

/// A text with its case left out of account.
fn fold(text: &str) -> (r: String)
    ensures
        r@ == folded(text@),
{
    lowercase(text)
}

/// Names in ASCII clash if they are the same but for the case of their letters.
pub proof fn case_does_not_tell_names_apart(a: Seq<char>, b: Seq<char>)
    requires
        vstd::utf8::is_ascii_chars(a),
        vstd::utf8::is_ascii_chars(b),
        a.len() == b.len(),
        forall|i: int| 0 <= i < a.len() ==> ascii_low(#[trigger] a[i]) == ascii_low(b[i]),
    ensures
        folded(a) == folded(b),
{
    assert(folded(a) =~= folded(b));
}

/// A place for extracted files: new ones are created one after the other, and written to until the next.
pub trait Folder {
    /// The files created here, in order, with what was written to each.
    open spec fn files(&self) -> Seq<(Seq<char>, Seq<u8>)> {
        Seq::empty()
    }

    /// Whether writing always succeeds, and creating a file does unless one of that name was created
    /// before.
    open spec fn reliable(&self) -> bool {
        false
    }

    /// Create a new file. Nothing is ever overwritten.
    fn create(&mut self, name: &str) -> (r: Result<(), IoError>)
        ensures
            final(self).reliable() == old(self).reliable(),
            r is Ok ==> final(self).files() == old(self).files().push((name@, Seq::empty())),
            r is Err ==> !old(self).reliable() || exists|i: int|
                0 <= i < old(self).files().len() && (#[trigger] old(self).files()[i]).0 == name@,
    ;

    /// Write to the file that was created last.
    fn append(&mut self, data: &[u8]) -> (r: Result<(), IoError>)
        requires
            old(self).files().len() > 0,
        ensures
            final(self).reliable() == old(self).reliable(),
            r is Ok ==> final(self).files() == old(self).files().drop_last().push(
                (old(self).files().last().0, old(self).files().last().1 + data@),
            ),
            r is Err ==> !old(self).reliable(),
    ;

    /// Be done with the file that was created last.
    fn close(&mut self) -> (r: Result<(), IoError>)
        ensures
            final(self).reliable() == old(self).reliable(),
            r is Ok ==> final(self).files() == old(self).files(),
            r is Err ==> !old(self).reliable(),
    ;
}

/// A folder in memory.
#[derive(Debug)]
pub struct MemoryFolder {
    /// Names and contents, in order.
    pub files: Vec<(String, Vec<u8>)>,
}

impl MemoryFolder {
    /// An empty folder.
    pub fn new() -> (r: Self)
        ensures
            r.files() == Seq::<(Seq<char>, Seq<u8>)>::empty(),
            r.reliable(),
    {
        let r = MemoryFolder { files: Vec::new() };
        assert(r.files() =~= Seq::<(Seq<char>, Seq<u8>)>::empty());
        r
    }
}

impl Folder for MemoryFolder {
    open spec fn files(&self) -> Seq<(Seq<char>, Seq<u8>)> {
        self.files@.map_values(|f: (String, Vec<u8>)| (f.0@, f.1@))
    }

    open spec fn reliable(&self) -> bool {
        true
    }

    fn create(&mut self, name: &str) -> (r: Result<(), IoError>) {
        let mut i: usize = 0;
        while i < self.files.len()
            invariant
                i <= self.files@.len(),
                self == old(self),
            decreases self.files@.len() - i,
        {
            if same_text(self.files[i].0.as_str(), name) {
                assert(self.files()[i as int].0 == name@);
                return Err(IoError::new(IoErrorKind::AlreadyExists, "file exists"));
            }
            i = i + 1;
        }
        let ghost before = self.files();
        self.files.push((name.to_owned(), Vec::new()));
        assert(self.files() =~= before.push((name@, Seq::empty())));
        Ok(())
    }

    fn append(&mut self, data: &[u8]) -> (r: Result<(), IoError>) {
        let ghost before = self.files();
        match self.files.pop() {
            Some((name, mut bytes)) => {
                let ghost held = bytes@;
                bytes.extend_from_slice(data);
                assert(bytes@ =~= held + data@);
                self.files.push((name, bytes));
                assert(self.files() =~= before.drop_last().push((before.last().0, held + data@)));
            },
            None => {},
        }
        Ok(())
    }

    fn close(&mut self) -> (r: Result<(), IoError>) {
        Ok(())
    }
}

/// The first name from the `n`th candidate on whose lower case is not taken.
pub open spec fn pick(base: Seq<char>, taken: Seq<Seq<char>>, n: nat) -> Option<Seq<char>>
    decreases 10000 - n,
{
    if n >= 10000 {
        None
    } else if !taken.contains(folded(candidate(base, n))) {
        Some(candidate(base, n))
    } else {
        pick(base, taken, n + 1)
    }
}

/// The sanitised name of the `i`th file, or a number where nothing is left of it.
pub open spec fn base_name(item: Item, i: nat) -> Seq<char> {
    match safe(decode_utf8(item.name)) {
        Some(name) => name,
        None => "file-"@ + decimal_text(i + 1),
    }
}

/// One extracted file.
pub ghost struct Unpacked {
    /// Its sanitised name.
    pub base: Seq<char>,
    /// The name it was created under.
    pub name: Seq<char>,
    /// What it holds.
    pub bytes: Seq<u8>,
}

/// What the data from the `i`th file on holds, or why it cannot be taken apart.
pub open spec fn unpack_files(
    data: Seq<u8>,
    end: Option<Fault>,
    list: Seq<Item>,
    i: nat,
    taken: Seq<Seq<char>>,
) -> Result<Seq<Unpacked>, Fault>
    decreases list.len() - i,
{
    if i >= list.len() {
        if data.len() > 0 {
            Err(Fault::CorruptBundle("data after the last file"@))
        } else {
            match end {
                Some(fault) => Err(fault),
                None => Ok(Seq::empty()),
            }
        }
    } else {
        let base = base_name(list[i as int], i);
        let n = list[i as int].len as int;
        match pick(base, taken, 1) {
            None => Err(Fault::InvalidRequest("too many files named "@ + base)),
            Some(name) => if data.len() < n {
                Err(
                    match end {
                        Some(fault) => fault,
                        None => Fault::CorruptBundle("payload ends inside file "@ + decimal_text(i + 1)),
                    },
                )
            } else {
                match unpack_files(
                    data.skip(n),
                    end,
                    list,
                    i + 1,
                    taken.push(folded(name)),
                ) {
                    Err(fault) => Err(fault),
                    Ok(rest) => Ok(seq![Unpacked { base, name, bytes: data.take(n) }] + rest),
                }
            },
        }
    }
}

/// Either what the source failed with, or that the manifest is not all there.
pub open spec fn manifest_cut(end: Option<Fault>) -> Fault {
    match end {
        Some(fault) => if ended_early(fault) {
            Fault::CorruptBundle("payload ends inside the manifest"@)
        } else {
            fault
        },
        None => Fault::CorruptBundle("payload ends inside the manifest"@),
    }
}

/// What a bundle holds, or why it cannot be taken apart.
pub open spec fn unpack(data: Seq<u8>, end: Option<Fault>) -> Result<Seq<Unpacked>, Fault> {
    if data.len() < 4 {
        Err(manifest_cut(end))
    } else {
        let n = le_number(data.take(4)) as int;
        if n > MAX_MANIFEST_LEN {
            Err(
                Fault::CorruptBundle(
                    "manifest claims "@ + decimal_text(n as nat) + " bytes"@,
                ),
            )
        } else if data.len() < 4 + n {
            Err(manifest_cut(end))
        } else {
            match parsed(data.subrange(4, 4 + n)) {
                Err(fault) => Err(fault),
                Ok(list) => unpack_files(data.skip(4 + n), end, list, 0, Seq::empty()),
            }
        }
    }
}

/// What [`read_bundle`] wrote.
#[derive(Debug, Clone)]
pub struct Extracted {
    /// The name each file was created under, in bundle order.
    pub files: Vec<String>,
    /// Each entry's sanitised name, *before* collision numbering. When moving the files somewhere else,
    /// number against these.
    pub names: Vec<String>,
    /// Sum of the files' lengths.
    pub total_bytes: u64,
}

/// The files as a folder lists them.
pub open spec fn listing(list: Seq<Unpacked>) -> Seq<(Seq<char>, Seq<u8>)> {
    list.map_values(|u: Unpacked| (u.name, u.bytes))
}

fn manifest_bytes(r: Result<Option<Vec<u8>>, IoError>) -> (e: Result<Vec<u8>, ZolalError>)
    ensures
        r matches Ok(Some(bytes)) ==> e == Ok::<Vec<u8>, ZolalError>(bytes),
        r matches Ok(None) ==> e matches Err(z) && z@ == manifest_cut(None),
        r matches Err(io) ==> e matches Err(z) && z@ == manifest_cut(Some(unwrapped(io)@)),
{
    let cut = ZolalError::CorruptBundle("payload ends inside the manifest".to_owned());
    match r {
        Ok(Some(bytes)) => Ok(bytes),
        Ok(None) => Err(cut),
        Err(io) => match ZolalError::from_io(io) {
            ZolalError::Io(inner) => if inner.kind() == IoErrorKind::UnexpectedEof {
                Err(cut)
            } else {
                Err(ZolalError::Io(inner))
            },
            other => Err(other),
        },
    }
}

/// Copy `len` bytes to the file that was created last.
fn copy_file<R: Read, D: Folder>(src: &mut R, folder: &mut D, len: u64, number: u64) -> (r: Result<
    (),
    ZolalError,
>)
    requires
        old(folder).files().len() > 0,
    ensures
        final(folder).reliable() == old(folder).reliable(),
        old(src).reliable() ==> final(src).reliable(),
        r is Ok ==> {
            &&& len <= old(src).remaining().len()
            &&& final(src).remaining() == old(src).remaining().skip(len as int)
            &&& final(src).ending() == old(src).ending()
            &&& final(folder).files() == old(folder).files().drop_last().push(
                (
                    old(folder).files().last().0,
                    old(folder).files().last().1 + old(src).remaining().take(len as int),
                ),
            )
        },
        r matches Err(e) ==> old(src).reliable() && old(folder).reliable() ==> {
            &&& old(src).remaining().len() < len
            &&& e@ == (match old(src).ending() {
                Some(fault) => fault,
                None => Fault::CorruptBundle("payload ends inside file "@ + decimal_text(number as nat)),
            })
        },
{
    let ghost all = src.remaining();
    let ghost files = folder.files();
    let ghost front = files.drop_last();
    let ghost name = files.last().0;
    let ghost held = files.last().1;
    let mut done: u64 = 0;
    proof {
        assert(all.skip(0) =~= all);
        assert(held + all.take(0) =~= held);
        assert(files =~= front.push((name, held + all.take(0))));
    }
    while done < len
        invariant
            done <= len,
            done <= all.len(),
            all == old(src).remaining(),
            src.remaining() == all.skip(done as int),
            src.ending() == old(src).ending(),
            old(src).reliable() ==> src.reliable(),
            folder.reliable() == old(folder).reliable(),
            folder.files() == front.push((name, held + all.take(done as int))),
        decreases len - done,
    {
        let left: u64 = len - done;
        let max: usize = if left < COPY_BLOCK as u64 { left as usize } else { COPY_BLOCK };
        let block = match src.read(max) {
            Ok(block) => block,
            Err(e) => {
                return Err(ZolalError::from_io(e));
            },
        };
        if block.len() == 0 {
            let mut text = "payload ends inside file ".to_owned();
            append_decimal(&mut text, number);
            return Err(ZolalError::CorruptBundle(text));
        }
        let ghost before = done as int;
        match folder.append(block.as_slice()) {
            Ok(()) => {},
            Err(e) => {
                return Err(ZolalError::from_io(e));
            },
        }
        done = done + block.len() as u64;
        proof {
            assert(all.take(before) + block@ =~= all.take(done as int));
            assert(held + all.take(before) + block@ =~= held + all.take(done as int));
            assert(all.skip(before).skip(block@.len() as int) =~= all.skip(done as int));
            let was = front.push((name, held + all.take(before)));
            assert(was.drop_last() =~= front);
        }
    }
    Ok(())
}

fn is_taken(taken: &Vec<String>, name: &str) -> (r: bool)
    ensures
        r == texts(taken@).contains(folded(name@)),
{
    let low = fold(name);
    let mut i: usize = 0;
    while i < taken.len()
        invariant
            i <= taken@.len(),
            low@ == folded(name@),
            forall|k: int| 0 <= k < i ==> texts(taken@)[k] != low@,
        decreases taken@.len() - i,
    {
        if same_text(taken[i].as_str(), low.as_str()) {
            assert(texts(taken@)[i as int] == low@);
            return true;
        }
        i = i + 1;
    }
    false
}

/// Strings as contracts speak of them.
pub open spec fn texts(list: Seq<String>) -> Seq<Seq<char>> {
    list.map_values(|s: String| s@)
}

/// A name for the next file that no earlier one has, whatever the case.
fn pick_name(base: &str, taken: &Vec<String>) -> (r: Result<String, ZolalError>)
    ensures
        match r {
            Ok(name) => pick(base@, texts(taken@), 1) == Some(name@),
            Err(e) => pick(base@, texts(taken@), 1) is None && e@ == Fault::InvalidRequest(
                "too many files named "@ + base@,
            ),
        },
{
    let ghost all = texts(taken@);
    let check = |name: &str| -> (b: bool)
        ensures
            b == texts(taken@).contains(folded(name@)),
        { is_taken(taken, name) };
    let r = unique_name(base, check);
    proof {
        if r is Ok {
            let found = r->Ok_0@;
            let n = choose|n: nat|
                1 <= n < 10000 && found == #[trigger] candidate(base@, n) && answered(
                    check,
                    candidate(base@, n),
                    false,
                ) && forall|m: nat|
                    1 <= m < n ==> answered(check, #[trigger] candidate(base@, m), true);
            assert forall|m: nat| 1 <= m < n implies all.contains(
                folded(#[trigger] candidate(base@, m)),
            ) by {
                assert(answered(check, candidate(base@, m), true));
            }
            lemma_pick(base@, all, 1, n);
        } else {
            assert forall|m: nat| 1 <= m < 10000 implies all.contains(
                folded(#[trigger] candidate(base@, m)),
            ) by {
                assert(answered(check, candidate(base@, m), true));
            }
            lemma_pick(base@, all, 1, 10000);
        }
    }
    r
}

proof fn lemma_pick(base: Seq<char>, taken: Seq<Seq<char>>, from: nat, n: nat)
    requires
        1 <= from <= n <= 10000,
        forall|m: nat| from <= m < n ==> taken.contains(folded(#[trigger] candidate(base, m))),
        n < 10000 ==> !taken.contains(folded(candidate(base, n))),
    ensures
        pick(base, taken, from) == (if n < 10000 {
            Some(candidate(base, n))
        } else {
            None
        }),
    decreases n - from,
{
    if from < n {
        assert(taken.contains(folded(candidate(base, from))));
        lemma_pick(base, taken, from + 1, n);
    }
}

proof fn lemma_pick_free(base: Seq<char>, taken: Seq<Seq<char>>, n: nat)
    ensures
        pick(base, taken, n) matches Some(name) ==> !taken.contains(folded(name)),
    decreases 10000 - n,
{
    if n < 10000 {
        lemma_pick_free(base, taken, n + 1);
    }
}

/// `done` and then `rest`.
pub open spec fn and_then(done: Seq<Unpacked>, rest: Result<Seq<Unpacked>, Fault>) -> Result<
    Seq<Unpacked>,
    Fault,
> {
    match rest {
        Ok(more) => Ok(done + more),
        Err(e) => Err(e),
    }
}

/// The sanitised name of a file, or a number where nothing is left of it.
fn sanitised(entry: &Entry, i: usize) -> (r: String)
    requires
        i < usize::MAX,
    ensures
        r@ == base_name(entry.item(), i as nat),
{
    proof {
        vstd::utf8::encode_utf8_decode_utf8(entry.name@);
    }
    match safe_name(entry.name.as_str()) {
        Some(name) => name,
        None => {
            let mut text = "file-".to_owned();
            append_decimal(&mut text, i as u64 + 1);
            text
        },
    }
}

/// Read the length prefix.
fn read_manifest_len<R: Read>(src: &mut R) -> (r: Result<usize, ZolalError>)
    ensures
        old(src).reliable() ==> final(src).reliable(),
        r matches Ok(n) ==> {
            &&& final(src).ending() == old(src).ending()
            &&& old(src).remaining().len() >= 4
            &&& n == le_number(old(src).remaining().take(4))
            &&& n <= MAX_MANIFEST_LEN
            &&& final(src).remaining() == old(src).remaining().skip(4)
        },
        r matches Err(e) ==> old(src).reliable() ==> unpack(
            old(src).remaining(),
            old(src).ending(),
        ) == Err::<Seq<Unpacked>, Fault>(e@),
{
    let ghost data = src.remaining();
    let head = read_exact(src, 4);
    let head = manifest_bytes(head)?;
    let size: u64 = le_value(head.as_slice(), 0, 4);
    proof {
        assert(head@.subrange(0, 4) =~= data.take(4));
        lemma_le_bound(data.take(4));
        lemma_pow256();
    }
    if size > MAX_MANIFEST_LEN as u64 {
        let mut text = "manifest claims ".to_owned();
        append_decimal(&mut text, size);
        text.append(" bytes");
        return Err(ZolalError::CorruptBundle(text));
    }
    Ok(size as usize)
}

/// Read the length prefix and the manifest.
#[verifier::spinoff_prover]
fn read_manifest<R: Read>(src: &mut R) -> (r: Result<Manifest, ZolalError>)
    ensures
        old(src).reliable() ==> final(src).reliable(),
        r matches Ok(m) ==> {
            &&& final(src).ending() == old(src).ending()
            &&& unpack(old(src).remaining(), old(src).ending()) == unpack_files(
                final(src).remaining(),
                final(src).ending(),
                m.items(),
                0,
                Seq::empty(),
            )
            &&& content_len(m.items()) <= u64::MAX
        },
        r matches Err(e) ==> old(src).reliable() ==> unpack(
            old(src).remaining(),
            old(src).ending(),
        ) == Err::<Seq<Unpacked>, Fault>(e@),
{
    let ghost data = src.remaining();
    let size = read_manifest_len(src)?;
    let raw = read_exact(src, size);
    let raw = manifest_bytes(raw)?;
    assert(raw@ =~= data.subrange(4, 4 + size));
    let manifest = Manifest::decode(raw.as_slice())?;
    proof {
        manifest_encoding_is_unique(raw@);
        assert(data.skip(4).skip(size as int) =~= data.skip(4 + size));
    }
    Ok(manifest)
}

/// Read a bundle from `src`, writing each file into `folder`.
///
/// File names go through [`Manifest::safe_name`] first, are de-duplicated case-insensitively, and are
/// only ever created anew, so nothing is overwritten. In a folder that is not empty, a file that is there
/// already makes this fail.
///
/// Reads `src` to its end even after the last file. With the decrypting reader that is what
/// authenticates the final chunk, so success means that the whole stream verified.
#[verifier::rlimit(40)]
pub fn read_bundle<R: Read, D: Folder>(src: &mut R, folder: &mut D) -> (r: Result<
    Extracted,
    ZolalError,
>)
    ensures
        final(folder).reliable() == old(folder).reliable(),
        r matches Ok(x) ==> unpack(old(src).remaining(), old(src).ending()) matches Ok(list) && {
            &&& final(folder).files() == old(folder).files() + listing(list)
            &&& texts(x.files@) == list.map_values(|u: Unpacked| u.name)
            &&& texts(x.names@) == list.map_values(|u: Unpacked| u.base)
            &&& x.total_bytes == unpacked_len(list)
        },
        r matches Err(e) ==> old(src).reliable() && old(folder).reliable() && old(folder).files().len() == 0 ==> unpack(old(src).remaining(), old(src).ending()) == Err::<
            Seq<Unpacked>,
            Fault,
        >(e@),
{
    let ghost end = src.ending();
    let ghost start = folder.files();
    let manifest = read_manifest(src)?;
    let ghost list = manifest.items();
    let mut taken: Vec<String> = Vec::new();
    let mut files: Vec<String> = Vec::new();
    let mut names: Vec<String> = Vec::new();
    let mut i: usize = 0;
    let ghost mut done: Seq<Unpacked> = Seq::empty();
    let ghost whole = unpack_files(src.remaining(), end, list, 0, Seq::empty());
    proof {
        assert(texts(taken@) =~= Seq::<Seq<char>>::empty());
        assert(texts(files@) =~= done.map_values(|u: Unpacked| u.name));
        assert(texts(names@) =~= done.map_values(|u: Unpacked| u.base));
        assert(folder.files() =~= start + listing(done));
        if let Ok(all) = whole {
            assert(done + all =~= all);
        }
        assert(list.take(0) =~= Seq::<Item>::empty());
    }
    while i < manifest.entries.len()
        invariant
            list == manifest.items(),
            i <= manifest.entries@.len(),
            end == old(src).ending(),
            src.ending() == end,
            old(src).reliable() ==> src.reliable(),
            folder.reliable() == old(folder).reliable(),
            whole == unpack(old(src).remaining(), old(src).ending()),
            whole == and_then(
                done,
                unpack_files(src.remaining(), end, list, i as nat, texts(taken@)),
            ),
            texts(taken@) == done.map_values(|u: Unpacked| folded(u.name)),
            texts(files@) == done.map_values(|u: Unpacked| u.name),
            texts(names@) == done.map_values(|u: Unpacked| u.base),
            start == old(folder).files(),
            folder.files() == start + listing(done),
            unpacked_len(done) == content_len(list.take(i as int)),
            done.len() == i,
        decreases manifest.entries@.len() - i,
    {
        let entry = &manifest.entries[i];
        assert(list[i as int] == entry.item());
        let base = sanitised(entry, i);
        let name = pick_name(base.as_str(), &taken)?;
        let low = fold(name.as_str());
        let ghost was = texts(taken@);
        let ghost rest_before = src.remaining();
        proof {
            lemma_pick_free(base@, was, 1);
            assert forall|k: int|
                start.len() <= k < folder.files().len() implies (#[trigger] folder.files()[k]).0 != name@ by {
                if folder.files()[k].0 == name@ {
                    assert(done[k - start.len()].name == name@);
                    assert(was[k - start.len()] == folded(done[k - start.len()].name));
                }
            }
        }
        match folder.create(name.as_str()) {
            Ok(()) => {},
            Err(e) => {
                return Err(ZolalError::from_io(e));
            },
        }
        copy_file(src, folder, entry.len, i as u64 + 1)?;
        match folder.close() {
            Ok(()) => {},
            Err(e) => {
                return Err(ZolalError::from_io(e));
            },
        }
        let ghost file = Unpacked {
            base: base@,
            name: name@,
            bytes: rest_before.take(entry.len as int),
        };
        let ghost before = done;
        let ghost files_before = texts(files@);
        let ghost names_before = texts(names@);
        taken.push(low);
        files.push(name);
        names.push(base);
        proof {
            done = before.push(file);
            assert(texts(taken@) =~= was.push(folded(file.name)));
            assert(texts(taken@) =~= done.map_values(|u: Unpacked| folded(u.name)));
            assert(texts(files@) =~= files_before.push(file.name));
            assert(texts(names@) =~= names_before.push(file.base));
            assert(texts(files@) =~= done.map_values(|u: Unpacked| u.name));
            assert(texts(names@) =~= done.map_values(|u: Unpacked| u.base));
            assert(Seq::<u8>::empty() + file.bytes =~= file.bytes);
            assert(folder.files() =~= start + listing(done));
            let rest = unpack_files(src.remaining(), end, list, (i + 1) as nat, texts(taken@));
            if let Ok(more) = rest {
                assert(before + (seq![file] + more) =~= done + more);
            }
            assert(done.drop_last() =~= before);
            assert(list.take(i + 1).drop_last() =~= list.take(i as int));
        }
        i = i + 1;
    }
    let extra = match src.read(1) {
        Ok(extra) => extra,
        Err(e) => {
            return Err(ZolalError::from_io(e));
        },
    };
    if extra.len() > 0 {
        return Err(ZolalError::CorruptBundle("data after the last file".to_owned()));
    }
    proof {
        assert(done + Seq::<Unpacked>::empty() =~= done);
        assert(list.take(i as int) =~= list);
    }
    let total_bytes: u64 = manifest.total_len();
    Ok(Extracted { files, names, total_bytes })
}

/// All lengths together.
pub open spec fn unpacked_len(list: Seq<Unpacked>) -> nat
    decreases list.len(),
{
    if list.len() == 0 {
        0
    } else {
        unpacked_len(list.drop_last()) + list.last().bytes.len()
    }
}

/// The names the files of a manifest would be created under, if there are enough.
pub open spec fn created_names(list: Seq<Item>, i: nat, taken: Seq<Seq<char>>) -> Option<Seq<Seq<char>>>
    decreases list.len() - i,
{
    if i >= list.len() {
        Some(Seq::empty())
    } else {
        match pick(base_name(list[i as int], i), taken, 1) {
            None => None,
            Some(name) => match created_names(list, i + 1, taken.push(folded(name))) {
                None => None,
                Some(rest) => Some(seq![name] + rest),
            },
        }
    }
}

proof fn lemma_unpack_files(list: Seq<Item>, parts: Seq<Seq<u8>>, i: nat, taken: Seq<Seq<char>>)
    requires
        parts_match(list, parts),
        i <= list.len(),
        created_names(list, i, taken) is Some,
    ensures
        unpack_files(concatenated(parts.skip(i as int)), None, list, i, taken) matches Ok(files) && {
            &&& files.len() == list.len() - i
            &&& created_names(list, i, taken)->Some_0.len() == files.len()
            &&& forall|k: int|
                0 <= k < files.len() ==> (#[trigger] files[k]).bytes == parts[i + k] && files[k].base
                    == base_name(list[i + k], (i + k) as nat) && files[k].name == created_names(
                    list,
                    i,
                    taken,
                )->Some_0[k]
        },
    decreases list.len() - i,
{
    let data = concatenated(parts.skip(i as int));
    if i < list.len() {
        let n = parts[i as int].len() as int;
        let name = pick(base_name(list[i as int], i), taken, 1)->Some_0;
        let more = taken.push(folded(name));
        assert(parts.skip(i as int)[0] == parts[i as int]);
        assert(parts.skip(i as int).skip(1) =~= parts.skip(i as int + 1));
        let rest = concatenated(parts.skip(i as int + 1));
        assert(data.take(n) =~= parts[i as int]);
        assert(data.skip(n) =~= rest);
        lemma_unpack_files(list, parts, i + 1, more);
        let tail = unpack_files(rest, None, list, i + 1, more)->Ok_0;
        let names = created_names(list, i + 1, more)->Some_0;
        let file = Unpacked { base: base_name(list[i as int], i), name, bytes: parts[i as int] };
        let files = seq![file] + tail;
        assert(unpack_files(data, None, list, i, taken) == Ok::<Seq<Unpacked>, Fault>(files));
        assert forall|k: int| 0 <= k < files.len() implies (#[trigger] files[k]).bytes == parts[i + k]
            && files[k].base == base_name(list[i + k], (i + k) as nat) && files[k].name
            == created_names(list, i, taken)->Some_0[k] by {
            if k > 0 {
                assert(files[k] == tail[k - 1]);
            }
        }
    } else {
        assert(parts.skip(i as int) =~= Seq::<Seq<u8>>::empty());
    }
}

/// What goes into a bundle comes out of it: the same files in the same order, each under its sanitised
/// name or a numbered one. The manifest has to be within the size a reader accepts, and there have to be
/// enough names.
pub proof fn bundle_round_trips(m: Manifest, parts: Seq<Seq<u8>>)
    requires
        parts_match(m.items(), parts),
        encode_fault(m.entries@) is None,
        content_len(m.items()) <= u64::MAX,
        encoded(m.items()).len() <= MAX_MANIFEST_LEN,
        created_names(m.items(), 0, Seq::empty()) is Some,
    ensures
        unpack(bundle(m.items(), parts), None) matches Ok(files) && {
            &&& files.len() == parts.len()
            &&& forall|i: int|
                0 <= i < files.len() ==> (#[trigger] files[i]).bytes == parts[i] && files[i].base
                    == base_name(m.items()[i], i as nat) && files[i].name == created_names(
                    m.items(),
                    0,
                    Seq::empty(),
                )->Some_0[i]
        },
{
    let list = m.items();
    let code = encoded(list);
    let data = bundle(list, parts);
    let n = code.len() as int;
    manifest_round_trips(m);
    lemma_pow256();
    lemma_le_round_trip(code.len(), 4);
    assert(data.take(4) =~= le_bytes(code.len(), 4));
    assert(data.subrange(4, 4 + n) =~= code);
    assert(data.skip(4 + n) =~= concatenated(parts));
    assert(parts.skip(0) =~= parts);
    lemma_unpack_files(list, parts, 0, Seq::empty());
}

/// No extracted file can lead out of its folder or replace another, whatever the bundle is: every name is
/// harmless, is neither empty nor `.` nor `..`, and has at most as many bytes as a file system takes; and
/// no two are equal, whatever the case of their letters.
pub proof fn extracted_names_are_safe(data: Seq<u8>, end: Option<Fault>)
    ensures
        unpack(data, end) matches Ok(files) ==> {
            &&& forall|k: int| 0 <= k < files.len() ==> storable((#[trigger] files[k]).name)
            &&& forall|j: int, k: int|
                0 <= j < k < files.len() ==> folded((#[trigger] files[j]).name)
                    != folded((#[trigger] files[k]).name)
        },
{
    if unpack(data, end) is Ok {
        let n = le_number(data.take(4)) as int;
        let code = data.subrange(4, 4 + n);
        lemma_parsed_len(code);
        lemma_extracted_names(data.skip(4 + n), end, parsed(code)->Ok_0, 0, Seq::empty());
    }
}

proof fn lemma_extracted_names(
    data: Seq<u8>,
    end: Option<Fault>,
    list: Seq<Item>,
    i: nat,
    taken: Seq<Seq<char>>,
)
    requires
        list.len() <= u32::MAX,
    ensures
        unpack_files(data, end, list, i, taken) matches Ok(files) ==> {
            &&& forall|k: int|
                0 <= k < files.len() ==> storable((#[trigger] files[k]).name) && !taken.contains(
                    folded(files[k].name),
                )
            &&& forall|j: int, k: int|
                0 <= j < k < files.len() ==> folded((#[trigger] files[j]).name)
                    != folded((#[trigger] files[k]).name)
        },
    decreases list.len() - i,
{
    if i < list.len() {
        let base = base_name(list[i as int], i);
        if let Some(name) = pick(base, taken, 1) {
            let n = list[i as int].len as int;
            let more = taken.push(folded(name));
            lemma_pick_free(base, taken, 1);
            lemma_pick_storable(list[i as int], i, taken, 1);
            lemma_extracted_names(data.skip(n), end, list, i + 1, more);
            if let Ok(files) = unpack_files(data, end, list, i, taken) {
                let rest = unpack_files(data.skip(n), end, list, i + 1, more)->Ok_0;
                assert(files[0].name == name);
                assert(forall|k: int| 1 <= k < files.len() ==> files[k] == rest[k - 1]);
                assert forall|k: int| 0 <= k < files.len() implies storable((#[trigger] files[k]).name)
                    && !taken.contains(folded(files[k].name)) by {
                    if k > 0 {
                        assert(files[k] == rest[k - 1]);
                        let low = folded(files[k].name);
                        if taken.contains(low) {
                            let j = choose|j: int| 0 <= j < taken.len() && taken[j] == low;
                            assert(more[j] == low);
                        }
                    }
                }
                assert forall|j: int, k: int| 0 <= j < k < files.len() implies folded(
                    (#[trigger] files[j]).name,
                ) != folded((#[trigger] files[k]).name) by {
                    assert(files[k] == rest[k - 1]);
                    if j == 0 {
                        assert(more[taken.len() as int] == folded(name));
                        assert(!more.contains(folded(rest[k - 1].name)));
                    } else {
                        assert(files[j] == rest[j - 1]);
                    }
                }
            }
        }
    }
}

proof fn lemma_pick_storable(item: Item, i: nat, taken: Seq<Seq<char>>, n: nat)
    requires
        i < u32::MAX,
    ensures
        pick(base_name(item, i), taken, n) matches Some(name) ==> storable(name),
    decreases 10000 - n,
{
    let base = base_name(item, i);
    if n < 10000 {
        lemma_pick_storable(item, i, taken, n + 1);
        lemma_base_storable(item, i);
        numbered_names_are_safe(base, n as u32);
    }
}

proof fn lemma_base_storable(item: Item, i: nat)
    requires
        i < u32::MAX,
    ensures
        storable(base_name(item, i)),
{
    safe_names_are_safe(decode_utf8(item.name));
    if safe(decode_utf8(item.name)) is None {
        reveal_strlit("file-");
        reveal_strlit(".");
        reveal_strlit("..");
        crate::text::lemma_decimal_digits(i + 1);
        crate::text::lemma_decimal_len_u64((i + 1) as u64);
        let digits = decimal_text(i + 1);
        let all = "file-"@ + digits;
        lemma_byte_len(all);
        assert forall|k: int| 0 <= k < all.len() implies !super::names::separates(#[trigger] all[k])
            && super::names::stays(all[k]) by {
            if k >= 5 {
                let b = crate::text::decimal(i + 1)[k - 5];
                assert(crate::text::is_digit(b));
                assert(all[k] == digits[k - 5]);
                assert(digits[k - 5] == b as char);
            }
        }
    }
}


/// What the file in place `k` is called, as a clash between names is seen.
pub open spec fn clash_key(list: Seq<Item>, k: int) -> Seq<char> {
    folded(base_name(list[k], k as nat))
}

/// Files whose names differ in more than case keep them.
pub proof fn distinct_names_stay(list: Seq<Item>, i: nat, taken: Seq<Seq<char>>)
    requires
        i <= list.len(),
        forall|j: int, k: int|
            0 <= j < k < list.len() ==> #[trigger] clash_key(list, j) != #[trigger] clash_key(list, k),
        forall|k: int| i <= k < list.len() ==> !taken.contains(#[trigger] clash_key(list, k)),
    ensures
        created_names(list, i, taken) == Some(
            Seq::new((list.len() - i) as nat, |k: int| base_name(list[i + k], (i + k) as nat)),
        ),
    decreases list.len() - i,
{
    let all = Seq::new((list.len() - i) as nat, |k: int| base_name(list[i + k], (i + k) as nat));
    if i < list.len() {
        let base = base_name(list[i as int], i);
        let more = taken.push(folded(base));
        assert(folded(base) == clash_key(list, i as int));
        assert forall|k: int| i + 1 <= k < list.len() implies !more.contains(
            #[trigger] clash_key(list, k),
        ) by {
            assert(clash_key(list, i as int) != clash_key(list, k));
            if more.contains(clash_key(list, k)) {
                let at = choose|at: int| 0 <= at < more.len() && more[at] == clash_key(list, k);
                assert(at < taken.len());
                assert(taken[at] == clash_key(list, k));
            }
        }
        distinct_names_stay(list, i + 1, more);
        let rest = created_names(list, i + 1, more)->Some_0;
        assert(seq![base] + rest =~= all);
    } else {
        assert(all =~= Seq::empty());
    }
}

} // verus!
