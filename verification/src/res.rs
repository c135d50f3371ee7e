use vstd::prelude::*;
use vstd::string::StringSliceAdditionalSpecFns;

use crate::bytes::dec_digits;
use crate::bytes::push_bytes;
use crate::bytes::push_decimal;
use crate::headers::Headers;

verus! {

/// Why `respond` fails.
#[derive(Copy, Clone, PartialEq, Eq, Structural, Debug)]
pub enum RespondError {
    /// A response was already written on this `Res`.
    AlreadyResponded,
}

/// The ASCII bytes of the fixed protocol tag `HTTP/1.x`.
pub open spec fn http_version_label() -> Seq<u8> {
    seq![72u8, 84u8, 84u8, 80u8, 47u8, 49u8, 46u8, 120u8]
}

/// The ASCII bytes of the default status text `OK`.
pub open spec fn ok_label() -> Seq<u8> {
    seq![79u8, 75u8]
}

/// The ASCII bytes of the header name `Content-Length`.
pub open spec fn content_length_label() -> Seq<u8> {
    seq![67u8, 111u8, 110u8, 116u8, 101u8, 110u8, 116u8, 45u8, 76u8, 101u8, 110u8, 103u8, 116u8,
        104u8]
}

pub open spec fn crlf() -> Seq<u8> {
    seq![13u8, 10u8]
}

/// `name: value` followed by CR LF.
pub open spec fn header_line(p: (Vec<u8>, Vec<u8>)) -> Seq<u8> {
    p.0@ + seq![58u8, 32u8] + p.1@ + crlf()
}

/// The header block: one line per stored entry, in storage order.
pub open spec fn header_lines(s: Seq<(Vec<u8>, Vec<u8>)>) -> Seq<u8>
    decreases s.len(),
{
    if s.len() == 0 {
        Seq::empty()
    } else {
        header_line(s[0]) + header_lines(s.subrange(1, s.len() as int))
    }
}

proof fn lemma_header_lines_push(s: Seq<(Vec<u8>, Vec<u8>)>, x: (Vec<u8>, Vec<u8>))
    ensures
        header_lines(s.push(x)) == header_lines(s) + header_line(x),
    decreases s.len(),
{
    if s.len() == 0 {
        let one = s.push(x);
        assert(one[0] == x);
        assert(one.subrange(1, one.len() as int).len() == 0);
        assert(header_lines(one.subrange(1, one.len() as int)) =~= Seq::<u8>::empty());
        assert(header_line(x) + Seq::<u8>::empty() =~= header_line(x));
        assert(Seq::<u8>::empty() + header_line(x) =~= header_line(x));
    } else {
        let t = s.subrange(1, s.len() as int);
        let sp = s.push(x);
        assert(sp[0] == s[0]);
        assert(sp.subrange(1, sp.len() as int) =~= t.push(x));
        lemma_header_lines_push(t, x);
        assert(header_line(s[0]) + (header_lines(t) + header_line(x)) =~= (header_line(s[0])
            + header_lines(t)) + header_line(x));
    }
}

/// The whole serialized response: status line, a Content-Length header
/// computed from the body, the stored headers, a blank line, the body.
pub open spec fn spec_response(
    version: Seq<u8>,
    code: u16,
    status: Seq<u8>,
    hs: Seq<(Vec<u8>, Vec<u8>)>,
    body: Seq<u8>,
) -> Seq<u8> {
    version + seq![32u8] + dec_digits(code as nat) + seq![32u8] + status + crlf()
        + content_length_label() + seq![58u8, 32u8] + dec_digits(body.len()) + crlf()
        + header_lines(hs) + crlf() + body
}

/// An accumulating response: status, status text and headers are set
/// first; `respond` then serializes them once with a body.
pub struct Res {
    pub version: Vec<u8>,
    pub status_code: u16,
    pub status: Vec<u8>,
    pub headers: Headers,
    pub written: Vec<u8>,
    pub responded: bool,
}

impl Res {
    pub open spec fn wf(self) -> bool {
        self.headers.wf()
    }

    /// A fresh response: status 200 `OK`, no headers, nothing written.
    pub fn new() -> (r: Res)
        ensures
            r.wf(),
            r.version@ == http_version_label(),
            r.status_code == 200,
            r.status@ == ok_label(),
            r.headers@ == Map::<Seq<u8>, Seq<u8>>::empty(),
            r.headers.entries@.len() == 0,
            r.written@ == Seq::<u8>::empty(),
            !r.responded,
    {
        let version: Vec<u8> = vec![72u8, 84u8, 84u8, 80u8, 47u8, 49u8, 46u8, 120u8];
        let status: Vec<u8> = vec![79u8, 75u8];
        proof {
            assert(version@ =~= http_version_label());
            assert(status@ =~= ok_label());
        }
        Res {
            version,
            status_code: 200,
            status,
            headers: Headers::new(),
            written: Vec::new(),
            responded: false,
        }
    }

    /// Sets one header; a later write for the same name wins, and the
    /// value previously stored there comes back.
    pub fn set_header(&mut self, key: &str, value: &str) -> (r: Option<Vec<u8>>)
        requires
            old(self).wf(),
        ensures
            final(self).wf(),
            final(self).headers@ == old(self).headers@.insert(
                key.spec_bytes(),
                value.spec_bytes(),
            ),
            final(self).version == old(self).version,
            final(self).status_code == old(self).status_code,
            final(self).status == old(self).status,
            final(self).written == old(self).written,
            final(self).responded == old(self).responded,
            match r {
                Some(prev) => old(self).headers@.dom().contains(key.spec_bytes()) && prev@ == old(
                    self,
                ).headers@[key.spec_bytes()],
                None => !old(self).headers@.dom().contains(key.spec_bytes()),
            },
    {
        let v = vstd::slice::slice_to_vec(value.as_bytes());
        self.headers.insert(key.as_bytes(), v)
    }

    /// Sets the status code and status text.
    pub fn set_status(&mut self, status_code: u16, status: &str)
        ensures
            final(self).status_code == status_code,
            final(self).status@ == status.spec_bytes(),
            final(self).version == old(self).version,
            final(self).headers == old(self).headers,
            final(self).written == old(self).written,
            final(self).responded == old(self).responded,
    {
        self.status_code = status_code;
        self.status = vstd::slice::slice_to_vec(status.as_bytes());
    }

    /// Serializes the response head and body once. A second call fails
    /// and writes nothing.
    pub fn respond(&mut self, content: &[u8]) -> (r: Result<(), RespondError>)
        ensures
            r is Ok <==> !old(self).responded,
            match r {
                Ok(()) => {
                    &&& final(self).responded
                    &&& final(self).written@ == old(self).written@ + spec_response(
                        old(self).version@,
                        old(self).status_code,
                        old(self).status@,
                        old(self).headers.entries@,
                        content@,
                    )
                    &&& final(self).version == old(self).version
                    &&& final(self).status_code == old(self).status_code
                    &&& final(self).status == old(self).status
                    &&& final(self).headers == old(self).headers
                },
                Err(RespondError::AlreadyResponded) => *final(self) == *old(self),
            },
    {
        if self.responded {
            return Err(RespondError::AlreadyResponded);
        }
        let ghost start = self.written@;
        push_bytes(&mut self.written, self.version.as_slice());
        self.written.push(32);
        push_decimal(&mut self.written, self.status_code as u64);
        self.written.push(32);
        push_bytes(&mut self.written, self.status.as_slice());
        self.written.push(13);
        self.written.push(10);
        let label: Vec<u8> = vec![67u8, 111u8, 110u8, 116u8, 101u8, 110u8, 116u8, 45u8, 76u8,
            101u8, 110u8, 103u8, 116u8, 104u8];
        proof {
            assert(label@ =~= content_length_label());
        }
        push_bytes(&mut self.written, label.as_slice());
        self.written.push(58);
        self.written.push(32);
        push_decimal(&mut self.written, content.len() as u64);
        self.written.push(13);
        self.written.push(10);
        let ghost head = self.written@;
        let mut i: usize = 0;
        while i < self.headers.entries.len()
            invariant
                i <= self.headers.entries@.len(),
                self.written@ == head + header_lines(self.headers.entries@.subrange(0, i as int)),
                self.headers == old(self).headers,
                self.version == old(self).version,
                self.status == old(self).status,
                self.status_code == old(self).status_code,
                !self.responded,
            decreases self.headers.entries@.len() - i,
        {
            let ghost pre = self.headers.entries@.subrange(0, i as int);
            let key = vstd::slice::slice_to_vec(self.headers.entries[i].0.as_slice());
            let val = vstd::slice::slice_to_vec(self.headers.entries[i].1.as_slice());
            push_bytes(&mut self.written, key.as_slice());
            self.written.push(58);
            self.written.push(32);
            push_bytes(&mut self.written, val.as_slice());
            self.written.push(13);
            self.written.push(10);
            proof {
                let e = self.headers.entries@[i as int];
                lemma_header_lines_push(pre, e);
                assert(pre.push(e) =~= self.headers.entries@.subrange(0, i + 1));
                assert(head + header_lines(pre) + key@ + seq![58u8] + seq![32u8] + val@
                    + seq![13u8] + seq![10u8] =~= head + header_lines(
                    self.headers.entries@.subrange(0, i + 1),
                ));
            }
            i += 1;
        }
        proof {
            assert(self.headers.entries@.subrange(0, self.headers.entries@.len() as int)
                =~= self.headers.entries@);
        }
        self.written.push(13);
        self.written.push(10);
        push_bytes(&mut self.written, content);
        self.responded = true;
        proof {
            assert(self.written@ =~= start + spec_response(
                old(self).version@,
                old(self).status_code,
                old(self).status@,
                old(self).headers.entries@,
                content@,
            ));
        }
        Ok(())
    }

    // getters:
    pub fn status(&self) -> (s: &Vec<u8>)
        ensures
            s == &self.status,
    {
        &self.status
    }

    pub fn responded(&self) -> (r: bool)
        ensures
            r == self.responded,
    {
        self.responded
    }

    /// The serialized bytes written so far.
    pub fn written(&self) -> (w: &Vec<u8>)
        ensures
            w == &self.written,
    {
        &self.written
    }
}

} // verus!
