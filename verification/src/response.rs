//! The outcome of a command as it is handed back to the caller and kept for
//! replays: a status code, a list of headers and the body bytes.

use vstd::prelude::*;

verus! {

/// One response header: a name and the raw bytes of its value.
#[derive(Debug, PartialEq, Eq)]
pub struct Header {
    pub name: String,
    pub value: Vec<u8>,
}

/// What a [`Header`] holds, as mathematical values.
#[verifier::ext_equal]
pub struct HeaderView {
    pub name: Seq<char>,
    pub value: Seq<u8>,
}

impl View for Header {
    type V = HeaderView;

    open spec fn view(&self) -> HeaderView {
        HeaderView { name: self.name@, value: self.value@ }
    }
}

impl Clone for Header {
    fn clone(&self) -> (copy: Self)
        ensures
            copy@ == self@,
    {
        Header { name: self.name.clone(), value: self.value.clone() }
    }
}

/// A response as it was first computed for a command. Replays of the command
/// hand back a copy of it, byte for byte.
#[derive(Debug, PartialEq, Eq)]
pub struct SavedResponse {
    pub status_code: u16,
    pub headers: Vec<Header>,
    pub body: Vec<u8>,
}

/// What a [`SavedResponse`] holds, as mathematical values.
#[verifier::ext_equal]
pub struct ResponseView {
    pub status_code: u16,
    pub headers: Seq<HeaderView>,
    pub body: Seq<u8>,
}

/// The views of a list of headers, in order.
pub open spec fn header_views(headers: Seq<Header>) -> Seq<HeaderView> {
    Seq::new(headers.len(), |i: int| headers[i]@)
}

impl View for SavedResponse {
    type V = ResponseView;

    open spec fn view(&self) -> ResponseView {
        ResponseView {
            status_code: self.status_code,
            headers: header_views(self.headers@),
            body: self.body@,
        }
    }
}

impl SavedResponse {
    /// A response with the given status code, no headers and an empty body.
    pub fn empty(status_code: u16) -> (response: Self)
        ensures
            response@ == (ResponseView {
                status_code,
                headers: Seq::<HeaderView>::empty(),
                body: Seq::<u8>::empty(),
            }),
    {
        SavedResponse { status_code, headers: Vec::new(), body: Vec::new() }
    }

    /// A response made of the three parts given.
    pub fn new(status_code: u16, headers: Vec<Header>, body: Vec<u8>) -> (response: Self)
        ensures
            response@ == (ResponseView {
                status_code,
                headers: header_views(headers@),
                body: body@,
            }),
    {
        SavedResponse { status_code, headers, body }
    }
}

impl Clone for SavedResponse {
    fn clone(&self) -> (copy: Self)
        ensures
            copy@ == self@,
    {
        let mut headers: Vec<Header> = Vec::new();
        let mut i: usize = 0;
        while i < self.headers.len()
            invariant
                i <= self.headers.len(),
                headers.len() == i,
                forall|j: int| 0 <= j < i ==> (#[trigger] headers[j])@ == self.headers[j]@,
            decreases self.headers.len() - i,
        {
            headers.push(self.headers[i].clone());
            i = i + 1;
        }
        let copy = SavedResponse {
            status_code: self.status_code,
            headers,
            body: self.body.clone(),
        };
        assert(copy@.headers =~= self@.headers);
        copy
    }
}

} // verus!
