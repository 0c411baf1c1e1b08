//! Token metadata served with quotes.

use vstd::prelude::*;
use vstd::string::{StrSliceExecFns, StringExecFns};

use crate::text::{chars_of, str_eq};

verus! {

/// Contract, symbol, name and logo URL of a token.
#[derive(Debug, Clone)]
pub struct TokenMetadata {
    pub contract: String,
    pub symbol: String,
    pub name: String,
    pub logo: Option<String>,
}

/// Index of the first `:` of a text.
pub open spec fn first_colon_char(s: Seq<char>) -> Option<int>
    decreases s.len(),
{
    if s.len() == 0 {
        None
    } else {
        match first_colon_char(s.drop_last()) {
            Some(i) => Some(i),
            None => if s.last() == ':' { Some(s.len() - 1) } else { None },
        }
    }
}

/// The stellar.expert icon of an asset: the native icon for `native`, the
/// `CODE-ISSUER-1` icon for `CODE:ISSUER` with both parts present, else
/// none.
pub open spec fn logo_url_value(asset_id: Seq<char>) -> Option<Seq<char>> {
    if asset_id == "native"@ {
        Some("https://stellar.expert/explorer/public/asset/native/icon"@)
    } else {
        match first_colon_char(asset_id) {
            Some(i) => {
                let code = asset_id.take(i);
                let issuer = asset_id.skip(i + 1);
                if code.len() > 0 && issuer.len() > 0 {
                    Some("https://stellar.expert/explorer/public/asset/"@ + code + "-"@ + issuer + "-1/icon"@)
                } else {
                    None
                }
            },
            None => None,
        }
    }
}

fn colon_position(chars: &Vec<char>) -> (r: Option<usize>)
    ensures
        match r {
            Some(i) => i < chars@.len() && first_colon_char(chars@) == Some(i as int),
            None => first_colon_char(chars@) is None,
        },
{
    let mut i: usize = 0;
    while i < chars.len()
        invariant
            i <= chars@.len(),
            first_colon_char(chars@.take(i as int)) is None,
        decreases chars.len() - i,
    {
        proof {
            assert(chars@.take(i + 1).drop_last() =~= chars@.take(i as int));
        }
        if chars[i] == ':' {
            proof {
                lemma_colon_prefix(chars@, (i + 1) as nat);
            }
            return Some(i);
        }
        i = i + 1;
    }
    proof {
        assert(chars@.take(i as int) =~= chars@);
    }
    None
}

/// A colon found in a prefix is the first colon of the whole.
proof fn lemma_colon_prefix(s: Seq<char>, n: nat)
    requires
        n <= s.len(),
        first_colon_char(s.take(n as int)) is Some,
    ensures
        first_colon_char(s) == first_colon_char(s.take(n as int)),
    decreases s.len() - n,
{
    if n < s.len() {
        assert(s.take((n + 1) as int).drop_last() =~= s.take(n as int));
        lemma_colon_prefix(s, n + 1);
    } else {
        assert(s.take(n as int) =~= s);
    }
}

/// Icon URL on stellar.expert for a classic asset id.
pub fn logo_url_for_asset_id(asset_id: &str) -> (r: Option<String>)
    ensures
        match r {
            Some(u) => logo_url_value(asset_id@) == Some(u@),
            None => logo_url_value(asset_id@) is None,
        },
{
    if str_eq(asset_id, "native") {
        return Some("https://stellar.expert/explorer/public/asset/native/icon".to_owned());
    }
    let chars = chars_of(asset_id);
    let i = match colon_position(&chars) {
        Some(i) => i,
        None => return None,
    };
    let len = chars.len();
    assert(i < len);
    let code = asset_id.substring_char(0, i);
    let issuer = asset_id.substring_char(i + 1, len);
    if len - (i + 1) == 0 || i == 0 {
        proof {
            assert(code@ =~= asset_id@.take(i as int));
            assert(issuer@ =~= asset_id@.skip(i + 1));
        }
        return None;
    }
    let mut url = String::new();
    url.append("https://stellar.expert/explorer/public/asset/");
    url.append(code);
    url.append("-");
    url.append(issuer);
    url.append("-1/icon");
    proof {
        assert(code@ =~= asset_id@.take(i as int));
        assert(issuer@ =~= asset_id@.skip(i + 1));
        assert(url@ =~= "https://stellar.expert/explorer/public/asset/"@ + asset_id@.take(i as int) + "-"@
            + asset_id@.skip(i + 1) + "-1/icon"@);
    }
    Some(url)
}

} // verus!
