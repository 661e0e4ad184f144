//! Sibling assets: the context handed to the generation backend.
//!
//! Every artifact already cached under a generation key is read back as an
//! [`Asset`]; the list of them is rendered into the text block the user
//! message carries, so the backend can build on what the domain already
//! serves.  Reading the files from disk is the caller's business; the
//! library owns the data and its rendering.

use vstd::prelude::*;

verus! {

/// One artifact already cached under the key: its path and its content.
pub struct Asset {
    pub path: String,
    pub content: String,
}

/// All the assets already cached under one generation key.
pub struct AssetList(pub Vec<Asset>);

/// How one asset stands in the prompt: its path, then its content fenced.
pub open spec fn asset_block(path: Seq<char>, content: Seq<char>) -> Seq<char> {
    path + "\n```\n"@ + content + "\n```\n"@
}

/// How the whole sibling context stands in the prompt: each asset's block
/// in order, a blank line after each.
pub open spec fn list_block(assets: Seq<Asset>) -> Seq<char>
    decreases assets.len(),
{
    if assets.len() == 0 {
        Seq::empty()
    } else {
        list_block(assets.drop_last()) + asset_block(
            assets.last().path@,
            assets.last().content@,
        ) + "\n\n"@
    }
}

impl Asset {
    /// This asset's block of the prompt.
    pub fn render(&self) -> (r: String)
        ensures
            r@ == asset_block(self.path@, self.content@),
    {
        let mut out = String::from_str(self.path.as_str());
        out.append("\n```\n");
        out.append(self.content.as_str());
        out.append("\n```\n");
        out
    }
}

impl AssetList {
    /// The whole sibling-context block of the prompt.
    pub fn render(&self) -> (r: String)
        ensures
            r@ == list_block(self.0@),
    {
        let mut out = String::new();
        let mut i: usize = 0;
        while i < self.0.len()
            invariant
                i <= self.0@.len(),
                out@ == list_block(self.0@.take(i as int)),
            decreases self.0@.len() - i,
        {
            let a = &self.0[i];
            out.append(a.path.as_str());
            out.append("\n```\n");
            out.append(a.content.as_str());
            out.append("\n```\n");
            out.append("\n\n");
            proof {
                assert(self.0@.take(i + 1).drop_last() =~= self.0@.take(i as int));
                assert(self.0@.take(i + 1).last() == self.0@[i as int]);
                assert(out@ =~= list_block(self.0@.take(i as int)) + asset_block(
                    self.0@[i as int].path@,
                    self.0@[i as int].content@,
                ) + "\n\n"@);
            }
            i += 1;
        }
        proof {
            assert(self.0@.take(self.0@.len() as int) =~= self.0@);
        }
        out
    }
}

} // verus!
