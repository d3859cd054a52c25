//! Commit objects: a tree, its parents, authorship and a message.
use crate::bytes::{dec_signed, push_all, push_signed_decimal};
use crate::header::{ObjectHeader, ObjectType};
use crate::traits::ToBytes;
use vstd::prelude::*;
use vstd::utf8::encode_utf8;

verus! {

/// Who made a commit, and when.
#[derive(Debug, Clone)]
pub struct CommitAuthor {
    pub name: String,
    pub email: String,
    pub timestamp: i64,
    pub timezone: String,
}

pub struct AuthorModel {
    pub name: Seq<char>,
    pub email: Seq<char>,
    pub timestamp: i64,
    pub timezone: Seq<char>,
}

impl View for CommitAuthor {
    type V = AuthorModel;

    open spec fn view(&self) -> AuthorModel {
        AuthorModel {
            name: self.name@,
            email: self.email@,
            timestamp: self.timestamp,
            timezone: self.timezone@,
        }
    }
}

/// The body of a commit.
#[derive(Debug, Clone)]
pub struct CommitContent {
    pub tree_sha: String,
    pub parent_sha: Vec<String>,
    pub author: CommitAuthor,
    pub committer: CommitAuthor,
    pub message: String,
}

pub struct ContentModel {
    pub tree: Seq<char>,
    pub parents: Seq<Seq<char>>,
    pub author: AuthorModel,
    pub committer: AuthorModel,
    pub message: Seq<char>,
}

impl View for CommitContent {
    type V = ContentModel;

    open spec fn view(&self) -> ContentModel {
        ContentModel {
            tree: self.tree_sha@,
            parents: self.parent_sha@.map_values(|p: String| p@),
            author: self.author@,
            committer: self.committer@,
            message: self.message@,
        }
    }
}

/// `"tree "`
pub open spec fn tree_label() -> Seq<u8> {
    seq![116u8, 114, 101, 101, 32]
}

/// `"parent "`
pub open spec fn parent_label() -> Seq<u8> {
    seq![112u8, 97, 114, 101, 110, 116, 32]
}

/// `"author "`
pub open spec fn author_label() -> Seq<u8> {
    seq![97u8, 117, 116, 104, 111, 114, 32]
}

/// `"committer "`
pub open spec fn committer_label() -> Seq<u8> {
    seq![99u8, 111, 109, 109, 105, 116, 116, 101, 114, 32]
}

/// `"<name> <<email>> <timestamp> <timezone>"`
pub open spec fn author_encoding(a: AuthorModel) -> Seq<u8> {
    encode_utf8(a.name) + seq![32u8, 60] + encode_utf8(a.email) + seq![62u8, 32] + dec_signed(
        a.timestamp as int,
    ) + seq![32u8] + encode_utf8(a.timezone)
}

/// One `"parent <hash>\n"` line per parent, in order.
pub open spec fn parents_encoding(ps: Seq<Seq<char>>) -> Seq<u8>
    decreases ps.len(),
{
    if ps.len() == 0 {
        Seq::empty()
    } else {
        parents_encoding(ps.drop_last()) + parent_label() + encode_utf8(ps.last()) + seq![10u8]
    }
}

/// The commit body: tree line, parent lines, author and committer lines,
/// a blank line, then the message and a final newline.
pub open spec fn content_encoding(c: ContentModel) -> Seq<u8> {
    tree_label() + encode_utf8(c.tree) + seq![10u8] + parents_encoding(c.parents) + author_label()
        + author_encoding(c.author) + seq![10u8] + committer_label() + author_encoding(c.committer)
        + seq![10u8, 10] + encode_utf8(c.message) + seq![10u8]
}

fn push_text(out: &mut Vec<u8>, s: &String)
    ensures
        final(out)@ == old(out)@ + encode_utf8(s@),
{
    push_all(out, s.as_str().as_bytes());
}

fn push_label(out: &mut Vec<u8>, label: &[u8])
    ensures
        final(out)@ == old(out)@ + label@,
{
    push_all(out, label);
}

impl ToBytes for CommitAuthor {
    open spec fn encodable(&self) -> bool {
        true
    }

    open spec fn encoded(&self) -> Seq<u8> {
        author_encoding(self@)
    }

    fn to_bytes(&self) -> (r: Vec<u8>) {
        let mut r: Vec<u8> = Vec::new();
        push_text(&mut r, &self.name);
        r.push(32u8);
        r.push(60u8);
        push_text(&mut r, &self.email);
        r.push(62u8);
        r.push(32u8);
        push_signed_decimal(&mut r, self.timestamp);
        r.push(32u8);
        push_text(&mut r, &self.timezone);
        assert(r@ =~= author_encoding(self@));
        r
    }
}

impl ToBytes for CommitContent {
    open spec fn encodable(&self) -> bool {
        true
    }

    open spec fn encoded(&self) -> Seq<u8> {
        content_encoding(self@)
    }

    fn to_bytes(&self) -> (r: Vec<u8>) {
        let mut r: Vec<u8> = Vec::new();
        let tree_l = vec![116u8, 114, 101, 101, 32];
        assert(tree_l@ =~= tree_label());
        push_label(&mut r, tree_l.as_slice());
        push_text(&mut r, &self.tree_sha);
        r.push(10u8);
        let ghost start = r@;
        let parents = Ghost(self.parent_sha@.map_values(|p: String| p@));
        let parent_l = vec![112u8, 97, 114, 101, 110, 116, 32];
        assert(parent_l@ =~= parent_label());
        let mut i: usize = 0;
        assert(parents@.subrange(0, 0) =~= Seq::<Seq<char>>::empty());
        while i < self.parent_sha.len()
            invariant
                i <= self.parent_sha@.len(),
                parents@ == self.parent_sha@.map_values(|p: String| p@),
                parent_l@ == parent_label(),
                r@ == start + parents_encoding(parents@.subrange(0, i as int)),
            decreases self.parent_sha@.len() - i,
        {
            push_label(&mut r, parent_l.as_slice());
            push_text(&mut r, &self.parent_sha[i]);
            r.push(10u8);
            proof {
                let next = parents@.subrange(0, i + 1);
                assert(next.drop_last() =~= parents@.subrange(0, i as int));
                assert(next.last() == self.parent_sha@[i as int]@);
                assert(r@ =~= start + parents_encoding(next));
            }
            i = i + 1;
        }
        assert(parents@.subrange(0, self.parent_sha@.len() as int) =~= parents@);
        let author_l = vec![97u8, 117, 116, 104, 111, 114, 32];
        assert(author_l@ =~= author_label());
        push_label(&mut r, author_l.as_slice());
        let a = self.author.to_bytes();
        push_all(&mut r, a.as_slice());
        r.push(10u8);
        let committer_l = vec![99u8, 111, 109, 109, 105, 116, 116, 101, 114, 32];
        assert(committer_l@ =~= committer_label());
        push_label(&mut r, committer_l.as_slice());
        let c = self.committer.to_bytes();
        push_all(&mut r, c.as_slice());
        r.push(10u8);
        r.push(10u8);
        push_text(&mut r, &self.message);
        r.push(10u8);
        assert(r@ =~= content_encoding(self@));
        r
    }
}

/// A commit behind its header.
#[derive(Debug, Clone)]
pub struct CommitObject {
    pub header: ObjectHeader,
    pub content: CommitContent,
}

impl CommitObject {
    /// A commit whose header gives the length of the encoded content.
    pub fn new(content: CommitContent) -> (r: CommitObject)
        ensures
            r.content@ == content@,
            r.header == (ObjectHeader {
                object_type: ObjectType::Commit,
                size: content_encoding(content@).len() as usize,
            }),
            content_encoding(content@).len() <= usize::MAX,
    {
        let size = content.to_bytes().len();
        CommitObject { header: ObjectHeader { object_type: ObjectType::Commit, size }, content }
    }
}

impl ToBytes for CommitObject {
    open spec fn encodable(&self) -> bool {
        true
    }

    open spec fn encoded(&self) -> Seq<u8> {
        self.header.encoding() + content_encoding(self.content@)
    }

    fn to_bytes(&self) -> (r: Vec<u8>) {
        let mut r = self.header.to_bytes();
        let c = self.content.to_bytes();
        push_all(&mut r, c.as_slice());
        r
    }
}

} // verus!
