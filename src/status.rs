use vstd::prelude::*;

verus! {

/// The response statuses this server can produce.
#[derive(Clone, Copy, Debug, PartialEq, Eq, Structural)]
pub enum Status {
    OK,
    BadRequest,
    NotFound,
}

impl Status {
    /// The numeric status code.
    pub open spec fn code(self) -> u16 {
        match self {
            Status::OK => 200,
            Status::BadRequest => 400,
            Status::NotFound => 404,
        }
    }

    /// The canonical reason phrase.
    pub open spec fn reason(self) -> Seq<char> {
        match self {
            Status::OK => seq!['O', 'K'],
            Status::BadRequest => seq!['B', 'a', 'd', ' ', 'R', 'e', 'q', 'u', 'e', 's', 't'],
            Status::NotFound => seq!['N', 'o', 't', ' ', 'F', 'o', 'u', 'n', 'd'],
        }
    }

    /// The numeric code together with the reason phrase.
    pub fn numerical_and_text(&self) -> (r: (u16, &'static str))
        ensures
            r.0 == self.code(),
            r.1@ == self.reason(),
    {
        match self {
            Status::OK => {
                proof {
                    reveal_strlit("OK");
                }
                (200, "OK")
            },
            Status::BadRequest => {
                proof {
                    reveal_strlit("Bad Request");
                }
                (400, "Bad Request")
            },
            Status::NotFound => {
                proof {
                    reveal_strlit("Not Found");
                }
                (404, "Not Found")
            },
        }
    }
}

} // verus!
