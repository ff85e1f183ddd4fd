//! Answers to clients' requests.

use vstd::prelude::*;

use crate::delivery::sent_message;
use crate::index::ids_of;
use crate::message::{
    check_utf8, decode_request, encode_file_list, is_utf8, encode_media_file, encode_server_type, encode_text_file,
    file_list_bytes, media_file_bytes, request_bytes, server_type_bytes, text_file_bytes,
    BrowserRequest,
};
use crate::packet::copy_bytes;
use crate::picture::{jpeg_of, transcode_jpeg};
use crate::server::{Action, ContentServer, FileKind, Load, ServerType};

verus! {

/// `r` asks the caller to read file `id` of the index `idx` for session `s`
/// of `source`, back along `route`, exactly when the index has that id.
pub open spec fn loads(
    idx: Seq<(u8, String)>,
    r: Seq<Action>,
    kind: FileKind,
    id: u8,
    source: u8,
    s: u64,
    route: Seq<u8>,
) -> bool {
    &&& r.len() <= 1
    &&& (r.len() == 1) == ids_of(idx).contains(id)
    &&& r.len() == 1 ==> r[0] is Load && ({
        let l = r[0]->Load_0;
        &&& l.kind == kind
        &&& l.id == id
        &&& l.destination == source
        &&& l.session_id == s
        &&& l.route@ == route
        &&& exists|k: int| 0 <= k < idx.len() && #[trigger] idx[k].0 == id && idx[k].1 == l.path
    })
}

/// What answering the request `raw` of session `s` from `source` that came
/// along `route` does to the server `c0`, giving `c1` and the actions `r`.
/// A file list or server type request is answered at once; a text or media
/// request that this server's type and index can serve asks for the file;
/// anything else gets no answer.
pub open spec fn answered(
    c0: ContentServer,
    c1: ContentServer,
    r: Seq<Action>,
    source: u8,
    s: u64,
    raw: Seq<u8>,
    route: Seq<u8>,
) -> bool {
    if raw == request_bytes(BrowserRequest::FileList) {
        sent_message(c0, c1, r, file_list_bytes(c0.served_ids()), s, route)
    } else if raw == request_bytes(BrowserRequest::ServerTypeRequest) {
        sent_message(c0, c1, r, server_type_bytes(c0.server_type), s, route)
    } else {
        &&& c1 == c0
        &&& forall|id: u8| #[trigger]
            request_bytes(BrowserRequest::TextFileRequest(id)) == raw ==> if c0.server_type
                == ServerType::Text {
                loads(c0.files@, r, FileKind::Text, id, source, s, route)
            } else {
                r.len() == 0
            }
        &&& forall|id: u8| #[trigger]
            request_bytes(BrowserRequest::MediaFileRequest(id)) == raw ==> if c0.server_type
                == ServerType::Media {
                loads(c0.media@, r, FileKind::Media, id, source, s, route)
            } else {
                r.len() == 0
            }
        &&& (forall|q: BrowserRequest| request_bytes(q) != raw) ==> r.len() == 0
    }
}

impl ContentServer {
    /// Ids of the index this server serves, in index order.
    pub open spec fn served_ids(&self) -> Seq<u8> {
        if self.server_type == ServerType::Media {
            ids_of(self.media@)
        } else {
            ids_of(self.files@)
        }
    }

    /// Answers a file list request with the ids of the served index.
    pub fn handle_files_list(&mut self, source_id: u8, session_id: u64, route: &Vec<u8>) -> (r: Vec<
        Action,
    >)
        requires
            old(self).wf(),
            route@.len() >= 2,
        ensures
            final(self).wf(),
            sent_message(
                *old(self),
                *final(self),
                r@,
                file_list_bytes(old(self).served_ids()),
                session_id,
                route@,
            ),
    {
        let index = if self.server_type == ServerType::Media {
            &self.media
        } else {
            &self.files
        };
        let mut ids: Vec<u8> = Vec::new();
        let mut k: usize = 0;
        while k < index.len()
            invariant
                k <= index.len(),
                ids@ == ids_of(index@).subrange(0, k as int),
            decreases index.len() - k,
        {
            ids.push(index[k].0);
            k = k + 1;
            assert(ids@ =~= ids_of(index@).subrange(0, k as int));
        }
        assert(ids@ =~= ids_of(index@));
        let msg = encode_file_list(&ids);
        self.send_message(source_id, &msg, session_id, route)
    }

    fn find_file(index: &Vec<(u8, String)>, id: u8) -> (r: Option<String>)
        ensures
            r is Some ==> exists|k: int|
                0 <= k < index@.len() && #[trigger] index@[k].0 == id && index@[k].1 == r->Some_0,
            r is None ==> !ids_of(index@).contains(id),
    {
        let mut k: usize = 0;
        while k < index.len()
            invariant
                k <= index.len(),
                forall|q: int| 0 <= q < k ==> index@[q].0 != id,
            decreases index.len() - k,
        {
            if index[k].0 == id {
                return Some(index[k].1.clone());
            }
            k = k + 1;
        }
        assert(!ids_of(index@).contains(id)) by {
            if ids_of(index@).contains(id) {
                let q = choose|q: int| 0 <= q < ids_of(index@).len() && ids_of(index@)[q] == id;
                assert(index@[q].0 == id);
            }
        }
        None
    }

    /// Asks the caller to read text file `id` when the index has it; the
    /// answer follows through `send_text_file`.
    pub fn handle_file_request(&self, id: u8, source_id: u8, session_id: u64, route: &Vec<u8>) -> (r:
        Vec<Action>)
        requires
            self.wf(),
        ensures
            loads(self.files@, r@, FileKind::Text, id, source_id, session_id, route@),
    {
        let mut r: Vec<Action> = Vec::new();
        match Self::find_file(&self.files, id) {
            Some(path) => {
                r.push(
                    Action::Load(
                        Load {
                            kind: FileKind::Text,
                            id,
                            path,
                            destination: source_id,
                            session_id,
                            route: copy_bytes(route),
                        },
                    ),
                );
                assert(ids_of(self.files@).contains(id)) by {
                    let k = choose|k: int| 0 <= k < self.files@.len() && #[trigger] self.files@[k].0 == id && self.files@[k].1 == path;
                    assert(ids_of(self.files@)[k] == id);
                }
            },
            None => {},
        }
        r
    }

    /// Asks the caller to read media file `id` when the index has it; the
    /// answer follows through `send_media_file`.
    pub fn handle_media_request(&self, id: u8, source_id: u8, session_id: u64, route: &Vec<u8>) -> (r:
        Vec<Action>)
        requires
            self.wf(),
        ensures
            loads(self.media@, r@, FileKind::Media, id, source_id, session_id, route@),
    {
        let mut r: Vec<Action> = Vec::new();
        match Self::find_file(&self.media, id) {
            Some(path) => {
                r.push(
                    Action::Load(
                        Load {
                            kind: FileKind::Media,
                            id,
                            path,
                            destination: source_id,
                            session_id,
                            route: copy_bytes(route),
                        },
                    ),
                );
                assert(ids_of(self.media@).contains(id)) by {
                    let k = choose|k: int| 0 <= k < self.media@.len() && #[trigger] self.media@[k].0 == id && self.media@[k].1 == path;
                    assert(ids_of(self.media@)[k] == id);
                }
            },
            None => {},
        }
        r
    }

    /// Answers a server type request.
    pub fn handle_type_request(&mut self, source_id: u8, session_id: u64, route: &Vec<u8>) -> (r: Vec<
        Action,
    >)
        requires
            old(self).wf(),
            route@.len() >= 2,
        ensures
            final(self).wf(),
            sent_message(
                *old(self),
                *final(self),
                r@,
                server_type_bytes(old(self).server_type),
                session_id,
                route@,
            ),
    {
        let msg = encode_server_type(self.server_type);
        self.send_message(source_id, &msg, session_id, route)
    }

    /// Sends text file `load.id` with the content the caller read; content
    /// that is not UTF-8 text gets no answer.
    pub fn send_text_file(&mut self, load: &Load, text: &Vec<u8>) -> (r: Vec<Action>)
        requires
            old(self).wf(),
            load.route@.len() >= 2,
        ensures
            final(self).wf(),
            is_utf8(text@) ==> sent_message(
                *old(self),
                *final(self),
                r@,
                text_file_bytes(load.id, text@),
                load.session_id,
                load.route@,
            ),
            !is_utf8(text@) ==> *final(self) == *old(self) && r@.len() == 0,
    {
        if !check_utf8(text) {
            return Vec::new();
        }
        let msg = encode_text_file(load.id, text);
        self.send_message(load.destination, &msg, load.session_id, &load.route)
    }

    /// Sends media file `load.id`, whose encoded image the caller produced.
    pub fn send_media_file(&mut self, load: &Load, content: &Vec<u8>) -> (r: Vec<Action>)
        requires
            old(self).wf(),
            load.route@.len() >= 2,
        ensures
            final(self).wf(),
            sent_message(
                *old(self),
                *final(self),
                r@,
                media_file_bytes(load.id, content@),
                load.session_id,
                load.route@,
            ),
    {
        let msg = encode_media_file(load.id, content);
        self.send_message(load.destination, &msg, load.session_id, &load.route)
    }

    /// Answers a complete request of session `session_id` that came from
    /// `source_id` along `route`. Text requests are served only by a text
    /// server and media requests only by a media server; a mismatched or
    /// undecodable request gets no answer.
    pub fn process_request(&mut self, source_id: u8, session_id: u64, raw: &Vec<u8>, route: &Vec<
        u8,
    >) -> (r: Vec<Action>)
        requires
            old(self).wf(),
            route@.len() >= 2,
        ensures
            final(self).wf(),
            answered(*old(self), *final(self), r@, source_id, session_id, raw@, route@),
    {
        proof {
            assert forall|q1: BrowserRequest, q2: BrowserRequest|
                request_bytes(q1) == raw@ && request_bytes(q2) == raw@ implies q1 == q2 by {
                crate::message::lemma_request_bytes_injective(q1, q2);
            }
        }
        match decode_request(raw) {
            None => Vec::new(),
            Some(BrowserRequest::FileList) => self.handle_files_list(source_id, session_id, route),
            Some(BrowserRequest::ServerTypeRequest) => self.handle_type_request(
                source_id,
                session_id,
                route,
            ),
            Some(BrowserRequest::TextFileRequest(id)) => {
                if self.server_type == ServerType::Text {
                    self.handle_file_request(id, source_id, session_id, route)
                } else {
                    Vec::new()
                }
            },
            Some(BrowserRequest::MediaFileRequest(id)) => {
                if self.server_type == ServerType::Media {
                    self.handle_media_request(id, source_id, session_id, route)
                } else {
                    Vec::new()
                }
            },
        }
    }

    /// Answers media request `load` with the picture file the caller read,
    /// encoded as JPEG; a file that holds no readable picture gets no answer.
    pub fn answer_media_file(&mut self, load: &Load, file: &Vec<u8>) -> (r: Vec<Action>)
        requires
            old(self).wf(),
            load.route@.len() >= 2,
        ensures
            final(self).wf(),
            match jpeg_of(file@) {
                Some(j) => sent_message(
                    *old(self),
                    *final(self),
                    r@,
                    media_file_bytes(load.id, j),
                    load.session_id,
                    load.route@,
                ),
                None => *final(self) == *old(self) && r@.len() == 0,
            },
    {
        match transcode_jpeg(file) {
            Some(jpeg) => self.send_media_file(load, &jpeg),
            None => Vec::new(),
        }
    }
}

} // verus!
