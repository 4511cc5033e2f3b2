//! The Immich HTTP API as this tool uses it: endpoints, request bodies, which
//! response statuses count as success, and resolving tag names to tag ids.

use crate::tags::truncate_tag_name;
use crate::text::{chars_of, push_text, string_of_range};
use vstd::prelude::*;

verus! {

/// The number of assets asked for per search page.
pub const PAGE_SIZE: u32 = 1000;

/// The default cutoff: only assets created before it are updated.
pub const DEFAULT_CUTOFF_DATE: &'static str = "2026-06-20T00:00:00+09:00";

// ---------------------------------------------------------------------------
// Base URL and endpoints.
// ---------------------------------------------------------------------------

/// `s` without its trailing slashes (`str::trim_end_matches('/')`).
pub open spec fn without_trailing_slashes(s: Seq<char>) -> Seq<char>
    decreases s.len(),
{
    if s.len() > 0 && s.last() == '/' {
        without_trailing_slashes(s.drop_last())
    } else {
        s
    }
}

/// The server URL as the client keeps it: without trailing slashes.
pub fn normalize_base_url(base_url: &str) -> (r: String)
    ensures
        r@ == without_trailing_slashes(base_url@),
{
    let v = chars_of(base_url);
    let mut end = v.len();
    assert(v@.take(end as int) =~= v@);
    while end > 0 && v[end - 1] == '/'
        invariant
            end <= v.len(),
            v@ == base_url@,
            without_trailing_slashes(base_url@) == without_trailing_slashes(v@.take(end as int)),
        decreases end,
    {
        assert(v@.take(end as int).drop_last() =~= v@.take(end - 1));
        end -= 1;
    }
    assert(v@.take(end as int) =~= v@.subrange(0, end as int));
    string_of_range(&v, 0, end)
}

/// A normalized URL is the URL with only its trailing slashes cut: a prefix
/// of it, followed in it by slashes alone; it ends in no slash, and normalizing
/// it again changes nothing.
pub proof fn lemma_normalized_url(s: Seq<char>)
    ensures
        without_trailing_slashes(s).len() <= s.len(),
        s.take(without_trailing_slashes(s).len() as int) == without_trailing_slashes(s),
        forall|j: int| without_trailing_slashes(s).len() <= j < s.len() ==> s[j] == '/',
        without_trailing_slashes(s).len() == 0 || without_trailing_slashes(s).last() != '/',
        without_trailing_slashes(without_trailing_slashes(s)) == without_trailing_slashes(s),
    decreases s.len(),
{
    if s.len() > 0 && s.last() == '/' {
        let d = s.drop_last();
        lemma_normalized_url(d);
        let r = without_trailing_slashes(s);
        assert(s.take(r.len() as int) =~= d.take(r.len() as int));
        assert forall|j: int| r.len() <= j < s.len() implies s[j] == '/' by {
            if j < s.len() - 1 {
                assert(s[j] == d[j]);
            }
        }
    } else {
        assert(s.take(s.len() as int) =~= s);
    }
}

/// The endpoints this tool calls.
pub enum Endpoint {
    /// `POST /api/search/metadata`
    SearchMetadata,
    /// `GET /api/assets/{id}/original`
    AssetOriginal(String),
    /// `PUT /api/assets`
    Assets,
    /// `GET` and `POST /api/tags`
    Tags,
    /// `PUT /api/tags/assets`
    TagAssets,
}

/// The path of an endpoint.
pub open spec fn endpoint_path(endpoint: Endpoint) -> Seq<char> {
    match endpoint {
        Endpoint::SearchMetadata => "/api/search/metadata"@,
        Endpoint::AssetOriginal(id) => "/api/assets/"@ + id@ + "/original"@,
        Endpoint::Assets => "/api/assets"@,
        Endpoint::Tags => "/api/tags"@,
        Endpoint::TagAssets => "/api/tags/assets"@,
    }
}

/// The URL of an endpoint on the server at `base_url`.
pub fn endpoint_url(base_url: &str, endpoint: &Endpoint) -> (r: String)
    ensures
        r@ == base_url@ + endpoint_path(*endpoint),
{
    let mut url = base_url.to_owned();
    match endpoint {
        Endpoint::SearchMetadata => push_text(&mut url, "/api/search/metadata"),
        Endpoint::AssetOriginal(id) => {
            push_text(&mut url, "/api/assets/");
            push_text(&mut url, id.as_str());
            push_text(&mut url, "/original");
            assert(url@ =~= base_url@ + ("/api/assets/"@ + id@ + "/original"@));
        },
        Endpoint::Assets => push_text(&mut url, "/api/assets"),
        Endpoint::Tags => push_text(&mut url, "/api/tags"),
        Endpoint::TagAssets => push_text(&mut url, "/api/tags/assets"),
    }
    url
}

// ---------------------------------------------------------------------------
// Response statuses.
// ---------------------------------------------------------------------------

/// A 2xx status (`StatusCode::is_success`).
pub fn is_success_status(status: u16) -> (b: bool)
    ensures
        b == (200 <= status <= 299),
{
    200 <= status && status <= 299
}

/// An update or link request succeeded: 200, 201 or 204.
pub fn is_write_accepted(status: u16) -> (b: bool)
    ensures
        b == (status == 200 || status == 201 || status == 204),
{
    status == 200 || status == 201 || status == 204
}

/// A tag creation succeeded: 200 or 201.
pub fn is_create_accepted(status: u16) -> (b: bool)
    ensures
        b == (status == 200 || status == 201),
{
    status == 200 || status == 201
}

// ---------------------------------------------------------------------------
// Request bodies.
// ---------------------------------------------------------------------------

/// The body of a metadata search.
pub struct MetadataSearchRequest {
    pub asset_type: String,
    pub is_favorite: bool,
    pub taken_before: String,
    pub with_exif: bool,
    pub page: u32,
    pub size: u32,
}

impl MetadataSearchRequest {
    /// Favorite images taken before `taken_before`, with EXIF data, one page
    /// of `PAGE_SIZE`.
    pub fn new(page: u32, taken_before: &str) -> (r: Self)
        ensures
            r.asset_type@ == "IMAGE"@,
            r.is_favorite,
            r.taken_before@ == taken_before@,
            r.with_exif,
            r.page == page,
            r.size == PAGE_SIZE,
    {
        MetadataSearchRequest {
            asset_type: "IMAGE".to_owned(),
            is_favorite: true,
            taken_before: taken_before.to_owned(),
            with_exif: true,
            page,
            size: PAGE_SIZE,
        }
    }
}

/// The body of a description update.
pub struct UpdateAssetsRequest {
    pub ids: Vec<String>,
    pub description: String,
}

impl UpdateAssetsRequest {
    /// Sets the description of the one asset `asset_id`.
    pub fn new(asset_id: &str, description: &str) -> (r: Self)
        ensures
            r.ids.deep_view() == seq![asset_id@],
            r.description@ == description@,
    {
        let ids = vec![asset_id.to_owned()];
        assert(ids.deep_view() =~= seq![asset_id@]);
        UpdateAssetsRequest { ids, description: description.to_owned() }
    }
}

/// The body of a tag creation.
pub struct CreateTagRequest {
    pub name: String,
    pub tag_type: String,
}

impl CreateTagRequest {
    /// A custom tag named `name`.
    pub fn new(name: &str) -> (r: Self)
        ensures
            r.name@ == name@,
            r.tag_type@ == "CUSTOM"@,
    {
        CreateTagRequest { name: name.to_owned(), tag_type: "CUSTOM".to_owned() }
    }
}

/// The body of a request that links tags to assets.
pub struct LinkTagsRequest {
    pub tag_ids: Vec<String>,
    pub asset_ids: Vec<String>,
}

impl LinkTagsRequest {
    /// Links every tag of `tag_ids` to the one asset `asset_id`.
    pub fn new(asset_id: &str, tag_ids: &[String]) -> (r: Self)
        ensures
            r.tag_ids.deep_view() == tag_ids.deep_view(),
            r.asset_ids.deep_view() == seq![asset_id@],
    {
        let mut ids: Vec<String> = Vec::new();
        let mut i: usize = 0;
        while i < tag_ids.len()
            invariant
                i <= tag_ids.len(),
                ids.deep_view() == tag_ids.deep_view().take(i as int),
            decreases tag_ids.len() - i,
        {
            let id = tag_ids[i].clone();
            assert(id@ == tag_ids.deep_view()[i as int]);
            let ghost before = ids.deep_view();
            ids.push(id);
            assert(ids.deep_view() =~= before.push(id@));
            assert(ids.deep_view() =~= tag_ids.deep_view().take(i + 1));
            i += 1;
        }
        assert(tag_ids.deep_view().take(tag_ids.len() as int) =~= tag_ids.deep_view());
        let asset_ids = vec![asset_id.to_owned()];
        assert(asset_ids.deep_view() =~= seq![asset_id@]);
        LinkTagsRequest { tag_ids: ids, asset_ids }
    }
}


/// The request that links `tag_ids` to the asset; none when there are no tag
/// ids, in which case nothing is sent.
pub fn link_tags_request(asset_id: &str, tag_ids: &[String]) -> (r: Option<LinkTagsRequest>)
    ensures
        tag_ids@.len() == 0 ==> r is None,
        tag_ids@.len() > 0 ==> (r matches Some(req) && req.tag_ids.deep_view()
            == tag_ids.deep_view() && req.asset_ids.deep_view() == seq![asset_id@]),
{
    if tag_ids.len() == 0 {
        None
    } else {
        Some(LinkTagsRequest::new(asset_id, tag_ids))
    }
}

// ---------------------------------------------------------------------------
// Resolving tag names to tag ids.
// ---------------------------------------------------------------------------

/// A tag as Immich lists or creates it.
pub struct KnownTag {
    pub name: String,
    pub id: String,
}

/// The map from tag name to tag id that a list of known tags gives, later
/// entries overriding earlier ones of the same name.
pub open spec fn known_map(tags: Seq<(Seq<char>, Seq<char>)>) -> Map<Seq<char>, Seq<char>>
    decreases tags.len(),
{
    if tags.len() == 0 {
        Map::empty()
    } else {
        known_map(tags.drop_last()).insert(tags.last().0, tags.last().1)
    }
}

/// The first position at or after `i` whose name is not known yet, or the
/// number of names when every remaining one is known.
pub open spec fn first_unknown(
    names: Seq<Seq<char>>,
    known: Map<Seq<char>, Seq<char>>,
    i: int,
) -> int
    decreases names.len() - i,
{
    if i < 0 || i >= names.len() {
        names.len() as int
    } else if !known.contains_key(names[i]) {
        i
    } else {
        first_unknown(names, known, i + 1)
    }
}

/// The first unknown name is unknown, and every name before it from `i` on
/// is known.
pub proof fn lemma_first_unknown(names: Seq<Seq<char>>, known: Map<Seq<char>, Seq<char>>, i: int)
    requires
        0 <= i <= names.len(),
    ensures
        i <= first_unknown(names, known, i) <= names.len(),
        first_unknown(names, known, i) < names.len() ==> !known.contains_key(
            names[first_unknown(names, known, i)],
        ),
        forall|k: int| i <= k < first_unknown(names, known, i) ==> known.contains_key(names[k]),
    decreases names.len() - i,
{
    if i < names.len() && known.contains_key(names[i]) {
        lemma_first_unknown(names, known, i + 1);
    }
}

/// The ids of `names[i..j]`, looked up in `known`.
pub open spec fn known_ids(
    names: Seq<Seq<char>>,
    known: Map<Seq<char>, Seq<char>>,
    i: int,
    j: int,
) -> Seq<Seq<char>> {
    Seq::new((j - i) as nat, |k: int| known[names[i + k]])
}

/// What a `TagResolver` holds: the (truncated) names to resolve, how many of
/// them have been dealt with, the tags known by name, and the ids found so far.
pub ghost struct ResolverState {
    pub names: Seq<Seq<char>>,
    pub next: int,
    pub known: Map<Seq<char>, Seq<char>>,
    pub ids: Seq<Seq<char>>,
}

/// The next thing to do to resolve tag names.
pub enum TagStep {
    /// No tag of this name is known: create it.
    Create(String),
    /// Every name has been dealt with.
    Done,
}

/// Resolves tag names to tag ids: names already known give their id, the
/// others are created one at a time (a failed creation is passed over).
pub struct TagResolver {
    names: Vec<String>,
    next: usize,
    known: Vec<KnownTag>,
    ids: Vec<String>,
}

impl View for TagResolver {
    type V = ResolverState;

    closed spec fn view(&self) -> ResolverState {
        ResolverState {
            names: self.names.deep_view(),
            next: self.next as int,
            known: known_map(self.known@.map_values(|t: KnownTag| (t.name@, t.id@))),
            ids: self.ids.deep_view(),
        }
    }
}

impl TagResolver {
    /// Every id found comes from a name dealt with, and no more names are
    /// dealt with than there are.
    pub closed spec fn wf(&self) -> bool {
        self.ids@.len() <= self.next <= self.names@.len()
    }

    /// A resolver for `tag_names`, each cut to Immich's tag-name limit.
    pub fn new(tag_names: &[String]) -> (r: Self)
        ensures
            r.wf(),
            r@.names == tag_names.deep_view().map_values(
                |n: Seq<char>| crate::tags::truncated_name(n),
            ),
            r@.next == 0,
            r@.known == Map::<Seq<char>, Seq<char>>::empty(),
            r@.ids.len() == 0,
    {
        let mut names: Vec<String> = Vec::new();
        let mut i: usize = 0;
        while i < tag_names.len()
            invariant
                i <= tag_names.len(),
                names.deep_view() == tag_names.deep_view().take(i as int).map_values(
                    |n: Seq<char>| crate::tags::truncated_name(n),
                ),
            decreases tag_names.len() - i,
        {
            let t = truncate_tag_name(tag_names[i].as_str());
            let ghost before = names.deep_view();
            names.push(t);
            assert(names.deep_view() =~= before.push(t@));
            assert(names.deep_view() =~= tag_names.deep_view().take(i + 1).map_values(
                |n: Seq<char>| crate::tags::truncated_name(n),
            ));
            i += 1;
        }
        assert(tag_names.deep_view().take(tag_names.len() as int) =~= tag_names.deep_view());
        let r = TagResolver { names, next: 0, known: Vec::new(), ids: Vec::new() };
        assert(r@.known =~= Map::<Seq<char>, Seq<char>>::empty()) by {
            assert(r.known@.map_values(|t: KnownTag| (t.name@, t.id@)).len() == 0);
        }
        r
    }

    /// Whether the tag list must be fetched at all: only when there are
    /// names to resolve.
    pub fn needs_tag_list(&self) -> (b: bool)
        ensures
            b == (self@.names.len() > 0),
    {
        self.names.len() > 0
    }

    /// Records a tag that Immich already has (or has just created).
    pub fn add_known(&mut self, tag: KnownTag)
        requires
            old(self).wf(),
        ensures
            final(self).wf(),
            final(self)@ == (ResolverState {
                known: old(self)@.known.insert(tag.name@, tag.id@),
                ..old(self)@
            }),
    {
        let ghost before = self.known@.map_values(|t: KnownTag| (t.name@, t.id@));
        let ghost entry = (tag.name@, tag.id@);
        self.known.push(tag);
        assert(self.known@.map_values(|t: KnownTag| (t.name@, t.id@)) =~= before.push(entry));
        assert(before.push(entry).drop_last() =~= before);
    }

    /// The id known for `name`, the latest one recorded.
    fn lookup(&self, name: &String) -> (r: Option<String>)
        ensures
            r matches Some(id) ==> self@.known.contains_key(name@) && id@ == self@.known[name@],
            r is None ==> !self@.known.contains_key(name@),
    {
        let ghost all = self.known@.map_values(|t: KnownTag| (t.name@, t.id@));
        let mut k = self.known.len();
        assert(all.take(k as int) =~= all);
        while k > 0
            invariant
                k <= self.known.len(),
                all == self.known@.map_values(|t: KnownTag| (t.name@, t.id@)),
                forall|j: int| k <= j < all.len() ==> all[j].0 != name@,
                known_map(all).contains_key(name@) == known_map(all.take(k as int)).contains_key(
                    name@,
                ),
                known_map(all).contains_key(name@) ==> known_map(all)[name@] == known_map(
                    all.take(k as int),
                )[name@],
            decreases k,
        {
            let ghost prefix = all.take(k as int);
            assert(prefix.drop_last() =~= all.take(k - 1));
            if self.known[k - 1].name == *name {
                return Some(self.known[k - 1].id.clone());
            }
            k -= 1;
        }
        assert(all.take(0) =~= Seq::<(Seq<char>, Seq<char>)>::empty());
        None
    }

    /// Deals with every name from the current one on that is already known,
    /// adding its id, and stops at the first unknown one, which is to be
    /// created.
    pub fn next_step(&mut self) -> (step: TagStep)
        requires
            old(self).wf(),
        ensures
            final(self).wf(),
            final(self)@.names == old(self)@.names,
            final(self)@.known == old(self)@.known,
            final(self)@.next == first_unknown(old(self)@.names, old(self)@.known, old(self)@.next),
            final(self)@.ids == old(self)@.ids + known_ids(
                old(self)@.names,
                old(self)@.known,
                old(self)@.next,
                final(self)@.next,
            ),
            step matches TagStep::Create(name) ==> final(self)@.next < final(self)@.names.len()
                && name@ == final(self)@.names[final(self)@.next]
                && !final(self)@.known.contains_key(name@),
            step is Done ==> final(self)@.next == final(self)@.names.len(),
    {
        let ghost start = self@;
        proof {
            lemma_first_unknown(start.names, start.known, start.next);
        }
        while self.next < self.names.len()
            invariant
                start == old(self)@,
                self.wf(),
                self@.names == start.names,
                self@.known == start.known,
                start.next <= self@.next <= self@.names.len(),
                first_unknown(start.names, start.known, start.next) == first_unknown(
                    start.names,
                    start.known,
                    self@.next,
                ),
                self@.ids == start.ids + known_ids(start.names, start.known, start.next, self@.next),
            decreases self.names.len() - self.next,
        {
            let name = &self.names[self.next];
            match self.lookup(name) {
                Some(id) => {
                    let ghost before = self@.ids;
                    self.ids.push(id);
                    self.next += 1;
                    assert(self@.ids =~= start.ids + known_ids(
                        start.names,
                        start.known,
                        start.next,
                        self@.next,
                    )) by {
                        assert(self.ids.deep_view() =~= before.push(id@));
                    }
                },
                None => {
                    return TagStep::Create(self.names[self.next].clone());
                },
            }
        }
        TagStep::Done
    }

    /// Records the outcome of creating the current name: the created tag
    /// becomes known and its id is added; a failed creation (`None`) is
    /// passed over. Either way the next name comes up.
    pub fn record_created(&mut self, created: Option<KnownTag>)
        requires
            old(self).wf(),
        ensures
            final(self).wf(),
            final(self)@.names == old(self)@.names,
            old(self)@.next < old(self)@.names.len() ==> final(self)@.next == old(self)@.next + 1,
            old(self)@.next < old(self)@.names.len() ==> match created {
                Some(tag) => final(self)@.known == old(self)@.known.insert(tag.name@, tag.id@)
                    && final(self)@.ids == old(self)@.ids.push(tag.id@),
                None => final(self)@.known == old(self)@.known && final(self)@.ids == old(
                    self,
                )@.ids,
            },
            old(self)@.next >= old(self)@.names.len() ==> final(self)@ == old(self)@,
    {
        if self.next >= self.names.len() {
            return;
        }
        match created {
            Some(tag) => {
                let id = tag.id.clone();
                let ghost known_before = self.known@.map_values(|t: KnownTag| (t.name@, t.id@));
                let ghost entry = (tag.name@, tag.id@);
                self.known.push(tag);
                assert(self.known@.map_values(|t: KnownTag| (t.name@, t.id@)) =~= known_before.push(
                    entry,
                ));
                assert(known_before.push(entry).drop_last() =~= known_before);
                let ghost before = self@.ids;
                self.ids.push(id);
                assert(self.ids.deep_view() =~= before.push(id@));
            },
            None => {},
        }
        assert(self.ids@.len() <= self.next + 1);
        self.next += 1;
    }

    /// Whether every name has been dealt with.
    pub fn is_done(&self) -> (b: bool)
        ensures
            b == (self@.next >= self@.names.len()),
    {
        self.next >= self.names.len()
    }

    /// The ids found so far, in the order of the names.
    pub fn into_ids(self) -> (ids: Vec<String>)
        ensures
            ids.deep_view() == self@.ids,
    {
        self.ids
    }
}

} // verus!
