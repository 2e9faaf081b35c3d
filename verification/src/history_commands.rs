//! What the history hands back to the user interface: an entry ready to be
//! put on the clipboard again, and images as base64.
use vstd::prelude::*;
use vstd::string::StringExecFns;

use crate::codec::{base64_encodable, base64_encode, encode, fits_base64, too_large_error};
use crate::crypto::opened;
use crate::history::{
    decrypt_message, full_error, full_ok, full_view_of, has_id, id_index, opt_bytes_view, opt_strings_view, opt_view,
    FullEntry, HistoryCoordinator, StoredEntry,
};
use crate::markup::{html_text_spec, html_to_text, rtf_text_spec, rtf_to_text};

verus! {

/// An entry as it is put back on the clipboard: its formats, and its image as
/// base64.
#[derive(Clone, Debug, Default)]
pub struct ResendPayload {
    pub kind: String,
    pub text: Option<String>,
    pub html: Option<String>,
    pub rtf: Option<String>,
    pub files: Option<Vec<String>>,
    pub image_base64: Option<String>,
    pub mime: Option<String>,
}

/// The text of a payload: the stored text, else the plain text of the HTML,
/// else that of the RTF, else none.
pub open spec fn payload_text(
    text: Option<Seq<char>>,
    html: Option<Seq<char>>,
    rtf: Option<Seq<char>>,
) -> Option<Seq<char>> {
    match text {
        Some(t) => Some(t),
        None => match html {
            Some(h) => Some(html_text_spec(h)),
            None => match rtf {
                Some(r) => Some(rtf_text_spec(r)),
                None => None,
            },
        },
    }
}

/// Whether a payload carries a full entry: the same kind, MIME type, HTML,
/// RTF and files, the text (see `payload_text`), and the image in base64.
pub open spec fn payload_of(p: ResendPayload, f: FullEntry) -> bool {
    &&& p.kind@ == f.kind@
    &&& opt_view(p.mime) == opt_view(f.mime)
    &&& opt_view(p.html) == opt_view(f.html)
    &&& opt_view(p.rtf) == opt_view(f.rtf)
    &&& opt_strings_view(p.files) == opt_strings_view(f.files)
    &&& opt_view(p.text) == payload_text(opt_view(f.text), opt_view(f.html), opt_view(f.rtf))
    &&& opt_view(p.image_base64) == (match f.image {
        Some(b) => Some(base64_encode(b@)),
        None => None,
    })
}

/// Turns a full entry into what is put back on the clipboard (see
/// `payload_of`).
pub fn payload_from_full_entry(full: FullEntry) -> (r: ResendPayload)
    requires
        full.image matches Some(b) ==> base64_encodable(b@.len()),
    ensures
        payload_of(r, full),
{
    let ghost f = full;
    let image_base64 = match &full.image {
        Some(b) => Some(encode(b.as_slice())),
        None => None,
    };
    let text = match full.text {
        Some(t) => Some(t),
        None => match &full.html {
            Some(h) => Some(html_to_text(h.as_str())),
            None => match &full.rtf {
                Some(r) => Some(rtf_to_text(r.as_str())),
                None => None,
            },
        },
    };
    ResendPayload {
        kind: full.kind,
        text,
        html: full.html,
        rtf: full.rtf,
        files: full.files,
        image_base64,
        mime: full.mime,
    }
}

/// The image of an entry, once decrypted, is small enough to encode as
/// base64 (true of an entry without an image or whose image does not
/// decrypt).
pub open spec fn image_fits(e: StoredEntry, key: Seq<u8>) -> bool {
    match e.image_ct {
        Some(ct) => match opened(key, ct@) {
            Some(b) => base64_encodable(b.len()),
            None => true,
        },
        None => true,
    }
}

/// The message of an id that no entry has.
pub open spec fn entry_not_found_error() -> Seq<char> {
    "entry not found"@
}

impl HistoryCoordinator {
    /// The entry with the id, ready to be put back on the clipboard; an error
    /// when no entry has the id, when it does not decrypt, or when its image
    /// is too large to encode as base64.
    pub fn resend(&self, id: u128) -> (r: Result<ResendPayload, String>)
        ensures
            !has_id(self.stored(), id) ==> (r matches Err(m) && m@ == entry_not_found_error()),
            has_id(self.stored(), id) ==> {
                let e = self.stored()[id_index(self.stored(), id)];
                &&& (r is Ok <==> full_ok(e, self.key_bytes()) && image_fits(e, self.key_bytes()))
                &&& (full_ok(e, self.key_bytes()) && !image_fits(e, self.key_bytes()) ==> (r matches Err(
                    m) && m@ == too_large_error()))
                &&& (!full_ok(e, self.key_bytes()) ==> (r matches Err(m) && m@ == full_error(
                    e,
                    self.key_bytes(),
                )))
                &&& (r matches Ok(p) ==> exists|f: FullEntry|
                    #[trigger] payload_of(p, f) && f@ == full_view_of(e, self.key_bytes()))
            },
    {
        match self.get_full_entry(id) {
            Ok(Some(full)) => {
                let fits = match &full.image {
                    Some(b) => fits_base64(b.len()),
                    None => true,
                };
                if !fits {
                    proof {
                        reveal_strlit("image too large to encode");
                    }
                    return Err(String::from_str("image too large to encode"));
                }
                assert(opt_bytes_view(full.image) == full_view_of(
                    self.stored()[id_index(self.stored(), id)],
                    self.key_bytes(),
                ).image);
                let ghost f = full;
                let p = payload_from_full_entry(full);
                assert(payload_of(p, f));
                Ok(p)
            },
            Ok(None) => {
                proof {
                    reveal_strlit("entry not found");
                }
                Err(String::from_str("entry not found"))
            },
            Err(m) => Err(m),
        }
    }

    /// The image of the entry with the id, in base64 (see `get_image`).
    pub fn image_base64(&self, id: u128) -> (r: Result<String, String>)
        ensures
            !(has_id(self.stored(), id) && self.stored()[id_index(
                self.stored(),
                id,
            )].image_ct is Some) ==> (r matches Err(m) && m@ == crate::history::no_rows_error()),
            has_id(self.stored(), id) ==> {
                let e = self.stored()[id_index(self.stored(), id)];
                e.image_ct matches Some(ct) ==> (r is Ok <==> opened(self.key_bytes(), ct@) is Some
                    && image_fits(e, self.key_bytes())) && (opened(self.key_bytes(), ct@) is None ==> (
                    r matches Err(m) && m@ == decrypt_message(ct@))) && (!image_fits(e, self.key_bytes())
                    ==> (r matches Err(m) && m@ == too_large_error())) && (r matches Ok(s) ==> Some(s@) == (match opened(self.key_bytes(), ct@) {
                        Some(b) => Some(base64_encode(b)),
                        None => None,
                    }))
            },
    {
        match self.get_image(id) {
            Ok(bytes) => if fits_base64(bytes.len()) {
                Ok(encode(bytes.as_slice()))
            } else {
                proof {
                    reveal_strlit("image too large to encode");
                }
                Err(String::from_str("image too large to encode"))
            },
            Err(m) => Err(m),
        }
    }
}

} // verus!
