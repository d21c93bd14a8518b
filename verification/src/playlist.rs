//! A typed-response mapper: regroups the ordered `(key, value)` pairs of a
//! decoded message into stored-playlist records.
//!
//! Each playlist is announced by a `playlist` line carrying its name,
//! followed by a `Last-Modified` line carrying the server timestamp. Any
//! other key in either position is an error; a trailing `playlist` line
//! with no `Last-Modified` after it is dropped.

use vstd::prelude::*;

use crate::response::pairs_view;

verus! {

/// A server timestamp, kept as the text the server sent.
#[derive(Debug, Clone, PartialEq, Eq)]
pub struct Timestamp {
    /// The timestamp exactly as it appeared in the response.
    pub raw: String,
}

impl Timestamp {
    /// Wraps the raw field value.
    pub fn from_value(value: String) -> (r: Self)
        ensures
            r.raw@ == value@,
    {
        Timestamp { raw: value }
    }
}

/// A response carried a field that the mapper did not expect.
#[derive(Debug, Clone, PartialEq, Eq)]
pub struct TypedResponseError {
    /// The key that was required at this position.
    pub expected: String,
    /// The key that was found instead.
    pub found: String,
}

impl TypedResponseError {
    /// Records that `found` appeared where `expected` was required.
    pub fn unexpected_field(expected: String, found: String) -> (r: Self)
        ensures
            r.expected@ == expected@,
            r.found@ == found@,
    {
        TypedResponseError { expected, found }
    }
}

/// A stored playlist, as enumerated by the server.
#[derive(Debug, Clone, PartialEq, Eq)]
pub struct Playlist {
    /// Name of the playlist.
    pub name: String,
    /// Server timestamp of last modification.
    pub last_modified: Timestamp,
}

/// The character-level model of a playlist list: `(name, timestamp)` pairs.
pub open spec fn playlists_view(v: Seq<Playlist>) -> Seq<(Seq<char>, Seq<char>)> {
    v.map_values(|p: Playlist| (p.name@, p.last_modified.raw@))
}

/// The records regrouped from the pairs of `fs` starting at `i`, with
/// `pending` the playlist name whose timestamp is still owed; an `Err`
/// holds the `(expected, found)` keys of the first unexpected field.
pub open spec fn parse_frame_rec(
    fs: Seq<(Seq<char>, Seq<char>)>,
    i: nat,
    pending: Option<Seq<char>>,
) -> Result<Seq<(Seq<char>, Seq<char>)>, (Seq<char>, Seq<char>)>
    decreases fs.len() - i,
{
    if i >= fs.len() {
        Ok(Seq::empty())
    } else {
        let k = fs[i as int].0;
        let v = fs[i as int].1;
        match pending {
            Some(name) => {
                if k == "Last-Modified"@ {
                    match parse_frame_rec(fs, i + 1, None) {
                        Ok(rest) => Ok(seq![(name, v)] + rest),
                        Err(e) => Err(e),
                    }
                } else {
                    Err(("Last-Modified"@, k))
                }
            },
            None => {
                if k == "playlist"@ {
                    parse_frame_rec(fs, i + 1, Some(v))
                } else {
                    Err(("playlist"@, k))
                }
            },
        }
    }
}

/// The name whose record is still open, as spec data.
pub open spec fn pending_view(cur: Option<String>) -> Option<Seq<char>> {
    match cur {
        None => None,
        Some(s) => Some(s@),
    }
}

impl Playlist {
    /// Regroups the ordered pairs of a decoded message into playlists.
    pub fn parse_frame(fields: Vec<(String, String)>) -> (r: Result<
        Vec<Playlist>,
        TypedResponseError,
    >)
        ensures
            match parse_frame_rec(pairs_view(fields@), 0, None) {
                Ok(ps) => r matches Ok(v) && playlists_view(v@) == ps,
                Err(e) => r matches Err(t) && t.expected@ == e.0 && t.found@ == e.1,
            },
    {
        let ghost fv = pairs_view(fields@);
        let playlist_key: String = "playlist".to_owned();
        let lm_key: String = "Last-Modified".to_owned();
        let mut out: Vec<Playlist> = Vec::new();
        let mut current_name: Option<String> = None;
        let mut i: usize = 0;
        proof {
            match parse_frame_rec(fv, 0, None) {
                Ok(rest) => {
                    assert(playlists_view(out@) + rest =~= rest);
                },
                Err(_) => {},
            }
        }
        while i < fields.len()
            invariant
                i <= fields.len(),
                fv == pairs_view(fields@),
                playlist_key@ == "playlist"@,
                lm_key@ == "Last-Modified"@,
                match parse_frame_rec(fv, i as nat, pending_view(current_name)) {
                    Ok(rest) => parse_frame_rec(fv, 0, None) == Ok::<
                        Seq<(Seq<char>, Seq<char>)>,
                        (Seq<char>, Seq<char>),
                    >(playlists_view(out@) + rest),
                    Err(e) => parse_frame_rec(fv, 0, None) == Err::<
                        Seq<(Seq<char>, Seq<char>)>,
                        (Seq<char>, Seq<char>),
                    >(e),
                },
            decreases fields.len() - i,
        {
            let key = fields[i].0.clone();
            let value = fields[i].1.clone();
            proof {
                assert(fv[i as int] == (fields@[i as int].0@, fields@[i as int].1@));
                assert(key@ == fv[i as int].0 && value@ == fv[i as int].1);
            }
            match current_name {
                Some(name) => {
                    if key == lm_key {
                        let ghost old_out = out@;
                        let ghost name_v = name@;
                        let ghost value_v = value@;
                        out.push(
                            Playlist { name, last_modified: Timestamp { raw: value } },
                        );
                        current_name = None;
                        proof {
                            assert(playlists_view(out@) =~= playlists_view(old_out).push(
                                (name_v, value_v),
                            ));
                            match parse_frame_rec(fv, (i + 1) as nat, None) {
                                Ok(rest) => {
                                    assert(playlists_view(old_out) + (seq![(name_v, value_v)]
                                        + rest) =~= playlists_view(out@) + rest);
                                },
                                Err(_) => {},
                            }
                        }
                    } else {
                        let r = TypedResponseError::unexpected_field(lm_key, key);
                        return Err(r);
                    }
                },
                None => {
                    if key == playlist_key {
                        current_name = Some(value);
                    } else {
                        let r = TypedResponseError::unexpected_field(playlist_key, key);
                        return Err(r);
                    }
                },
            }
            i = i + 1;
        }
        proof {
            assert(parse_frame_rec(fv, i as nat, pending_view(current_name)) == Ok::<
                Seq<(Seq<char>, Seq<char>)>,
                (Seq<char>, Seq<char>),
            >(Seq::empty()));
            assert(playlists_view(out@) + Seq::<(Seq<char>, Seq<char>)>::empty() =~= playlists_view(
                out@,
            ));
        }
        Ok(out)
    }
}

} // verus!
