//! The configuration of a tile cache: where the cache directory lies, how large it may grow and
//! which tile provider serves the tiles.

use vstd::prelude::*;

verus! {

/// The user agent that is sent to tile providers that do not ask for one of their own.
pub const DEFAULT_USER_AGENT: &'static str = "map-iced/0.1.0";

/// The message when a cache directory relative to the system's is asked for and there is none.
pub const NO_CACHE_DIRECTORY: &'static str = "Cache directory not found on system";

/// The name of the fixed directory inside the system's cache directory.
pub const FIXED_CACHE_SUBDIRECTORY: &'static str = "Tiles";

/// The different types of caching directories we offer.
#[derive(Debug, Clone)]
pub enum CachingDirectory {
    /// Completely manually constructed.
    FullyConstructed(String),
    /// Relative to the system's cache directory.
    CacheDirectory(String),
    /// Fixed to the directory `Tiles` in the system's cache directory.
    CacheDirFixed,
}

/// The tile source where we obtain our images from. They all follow the slippy map convention.
#[derive(Debug, Clone)]
pub enum TileSource {
    /// The most flexible form where the beginning, ending and the user agent are given.
    FullyConstructed {
        start_url: String,
        end_url: String,
        user_agent: String,
        copyright_text: String,
    },
    /// The open street map tile servers.
    OpenStreetMap { user_agent: String },
    /// The map tiles api.
    MapTilesApi { api_key: String },
    /// The mapbox api with a tile set id.
    MapBoxTiles { tileset_id: String, api_key: String },
    /// The mapbox api with the standard satellite tile set.
    MapBoxSatellite { api_key: String },
    /// The thunderforest maps.
    Thunderforest { style: String, api_key: String },
}

/// The combined information for a tile cache: the caching directory, the size of the cache on
/// disc and the source of the tiles.
#[derive(Debug, Clone)]
pub struct TileCacheConfig {
    /// Where the caching directory resides.
    cache: CachingDirectory,
    /// The size of the cache in bytes.
    cache_size: u64,
    /// Where the tiles come from.
    source: TileSource,
}

/// The four strings that describe a tile provider.
#[derive(Debug, Clone)]
pub struct QuadrupleInfo {
    pub start_url: String,
    pub end_url: String,
    pub user_agent: String,
    pub copyright_text: String,
}

/// The four strings of a tile provider as character sequences.
pub open spec fn quadruple_of(source: TileSource) -> (Seq<char>, Seq<char>, Seq<char>, Seq<char>) {
    match source {
        TileSource::FullyConstructed { start_url, end_url, user_agent, copyright_text } => (
            start_url@,
            end_url@,
            user_agent@,
            copyright_text@,
        ),
        TileSource::OpenStreetMap { user_agent } => (
            "https://tile.openstreetmap.org/"@,
            ""@,
            user_agent@,
            "© OpenStreetMap Contributors"@,
        ),
        TileSource::MapTilesApi { api_key } => (
            "https://maptiles.p.rapidapi.com/en/map/v1/"@,
            "?rapidapi-key="@ + api_key@,
            DEFAULT_USER_AGENT@,
            "Map © Map Tiles API | Map data © OpenStreetMap contributors"@,
        ),
        TileSource::MapBoxTiles { tileset_id, api_key } => (
            "https://api.mapbox.com/v4/"@ + tileset_id@ + "/"@,
            "?access_token="@ + api_key@,
            DEFAULT_USER_AGENT@,
            "© Mapbox © OpenStreetMap"@,
        ),
        TileSource::MapBoxSatellite { api_key } => (
            "https://api.mapbox.com/v4/mapbox.satellite/"@,
            "?access_token="@ + api_key@,
            DEFAULT_USER_AGENT@,
            "© Mapbox © OpenStreetMap"@,
        ),
        TileSource::Thunderforest { style, api_key } => (
            "https://api.thunderforest.com/"@ + style@ + "/"@,
            "?apikey="@ + api_key@,
            DEFAULT_USER_AGENT@,
            "Maps © www.thunderforest.com, Data © www.osm.org/copyright"@,
        ),
    }
}

/// A literal joined with a string.
fn joined(prefix: &str, s: &String) -> (r: String)
    ensures
        r@ == prefix@ + s@,
{
    let mut r = String::from_str(prefix);
    r.append(s.as_str());
    r
}

impl TileSource {
    /// The urls around the tile path, the user agent and the copyright text of the provider.
    pub fn get_quadruple(&self) -> (r: QuadrupleInfo)
        ensures
            (r.start_url@, r.end_url@, r.user_agent@, r.copyright_text@) == quadruple_of(*self),
    {
        match self {
            TileSource::FullyConstructed { start_url, end_url, user_agent, copyright_text } => {
                QuadrupleInfo {
                    start_url: start_url.clone(),
                    end_url: end_url.clone(),
                    user_agent: user_agent.clone(),
                    copyright_text: copyright_text.clone(),
                }
            },
            TileSource::OpenStreetMap { user_agent } => QuadrupleInfo {
                start_url: String::from_str("https://tile.openstreetmap.org/"),
                end_url: String::from_str(""),
                user_agent: user_agent.clone(),
                copyright_text: String::from_str("© OpenStreetMap Contributors"),
            },
            TileSource::MapTilesApi { api_key } => QuadrupleInfo {
                start_url: String::from_str("https://maptiles.p.rapidapi.com/en/map/v1/"),
                end_url: joined("?rapidapi-key=", api_key),
                user_agent: String::from_str(DEFAULT_USER_AGENT),
                copyright_text: String::from_str(
                    "Map © Map Tiles API | Map data © OpenStreetMap contributors",
                ),
            },
            TileSource::MapBoxTiles { tileset_id, api_key } => {
                let mut start_url = joined("https://api.mapbox.com/v4/", tileset_id);
                start_url.append("/");
                QuadrupleInfo {
                    start_url,
                    end_url: joined("?access_token=", api_key),
                    user_agent: String::from_str(DEFAULT_USER_AGENT),
                    copyright_text: String::from_str("© Mapbox © OpenStreetMap"),
                }
            },
            TileSource::MapBoxSatellite { api_key } => QuadrupleInfo {
                start_url: String::from_str("https://api.mapbox.com/v4/mapbox.satellite/"),
                end_url: joined("?access_token=", api_key),
                user_agent: String::from_str(DEFAULT_USER_AGENT),
                copyright_text: String::from_str("© Mapbox © OpenStreetMap"),
            },
            TileSource::Thunderforest { style, api_key } => {
                let mut start_url = joined("https://api.thunderforest.com/", style);
                start_url.append("/");
                QuadrupleInfo {
                    start_url,
                    end_url: joined("?apikey=", api_key),
                    user_agent: String::from_str(DEFAULT_USER_AGENT),
                    copyright_text: String::from_str(
                        "Maps © www.thunderforest.com, Data © www.osm.org/copyright",
                    ),
                }
            },
        }
    }
}

/// Where a cache directory lies: `Err` with the message where it is relative to the system's
/// cache directory and the system has none; else the system's cache directory, where the path
/// is relative to it, and the path.
pub open spec fn cache_location(dir: CachingDirectory, os_cache_dir: Option<Seq<char>>) -> Result<
    (Option<Seq<char>>, Seq<char>),
    Seq<char>,
> {
    match dir {
        CachingDirectory::FullyConstructed(path) => Ok((None, path@)),
        CachingDirectory::CacheDirectory(path) => match os_cache_dir {
            Some(base) => Ok((Some(base), path@)),
            None => Err(NO_CACHE_DIRECTORY@),
        },
        CachingDirectory::CacheDirFixed => match os_cache_dir {
            Some(base) => Ok((Some(base), FIXED_CACHE_SUBDIRECTORY@)),
            None => Err(NO_CACHE_DIRECTORY@),
        },
    }
}

/// The view of an optional base directory and a path.
pub open spec fn location_view(r: Result<(Option<String>, String), String>) -> Result<
    (Option<Seq<char>>, Seq<char>),
    Seq<char>,
> {
    match r {
        Ok((Some(base), path)) => Ok((Some(base@), path@)),
        Ok((None, path)) => Ok((None, path@)),
        Err(e) => Err(e@),
    }
}

impl CachingDirectory {
    /// Resolves the directory against the system's cache directory, if the system has one: the
    /// path is joined onto the base directory where one is given.
    pub fn get_path(&self, os_cache_dir: Option<&str>) -> (r: Result<(Option<String>, String), String>)
        ensures
            location_view(r) == cache_location(
                *self,
                match os_cache_dir {
                    Some(d) => Some(d@),
                    None => None,
                },
            ),
    {
        match self {
            CachingDirectory::FullyConstructed(path) => Ok((None, path.clone())),
            CachingDirectory::CacheDirectory(path) => match os_cache_dir {
                Some(base) => Ok((Some(String::from_str(base)), path.clone())),
                None => Err(String::from_str(NO_CACHE_DIRECTORY)),
            },
            CachingDirectory::CacheDirFixed => match os_cache_dir {
                Some(base) => Ok(
                    (Some(String::from_str(base)), String::from_str(FIXED_CACHE_SUBDIRECTORY)),
                ),
                None => Err(String::from_str(NO_CACHE_DIRECTORY)),
            },
        }
    }
}

impl TileCacheConfig {
    /// Puts a configuration together.
    pub fn new(cache: CachingDirectory, cache_size: u64, source: TileSource) -> (r: Self)
        ensures
            r.spec_cache() == cache,
            r.spec_cache_size() == cache_size,
            r.spec_source() == source,
    {
        TileCacheConfig { cache, cache_size, source }
    }

    /// The caching directory.
    pub closed spec fn spec_cache(&self) -> CachingDirectory {
        self.cache
    }

    /// The size of the cache in bytes.
    pub closed spec fn spec_cache_size(&self) -> u64 {
        self.cache_size
    }

    /// The tile source.
    pub closed spec fn spec_source(&self) -> TileSource {
        self.source
    }

    /// The caching directory.
    pub fn cache(&self) -> (r: &CachingDirectory)
        ensures
            *r == self.spec_cache(),
    {
        &self.cache
    }

    /// The size of the cache in bytes.
    pub fn cache_size(&self) -> (r: u64)
        ensures
            r == self.spec_cache_size(),
    {
        self.cache_size
    }

    /// The tile source.
    pub fn source(&self) -> (r: &TileSource)
        ensures
            *r == self.spec_source(),
    {
        &self.source
    }
}


/// What each tile provider stands for: the start url of every provider but a fully constructed
/// one is an `https` url that ends with `/`, so that the tile path `level/x/y.png` follows it as
/// a path; the keyed providers put their key at the end of the end url; the fixed literals are
/// these.
pub proof fn lemma_provider_urls(source: TileSource)
    ensures
        !(source is FullyConstructed) ==> {
            &&& quadruple_of(source).0.len() > 8
            &&& quadruple_of(source).0.take(8) == "https://"@
            &&& quadruple_of(source).0.last() == '/'
        },
        match source {
            TileSource::FullyConstructed { start_url, end_url, user_agent, copyright_text } => {
                &&& quadruple_of(source).0 == start_url@
                &&& quadruple_of(source).1 == end_url@
                &&& quadruple_of(source).2 == user_agent@
                &&& quadruple_of(source).3 == copyright_text@
            },
            TileSource::OpenStreetMap { user_agent } => {
                &&& quadruple_of(source).0 == "https://tile.openstreetmap.org/"@
                &&& quadruple_of(source).1 == Seq::<char>::empty()
                &&& quadruple_of(source).2 == user_agent@
            },
            TileSource::MapTilesApi { api_key } => {
                &&& quadruple_of(source).0 == "https://maptiles.p.rapidapi.com/en/map/v1/"@
                &&& quadruple_of(source).1 == "?rapidapi-key="@ + api_key@
                &&& quadruple_of(source).2 == "map-iced/0.1.0"@
            },
            TileSource::MapBoxTiles { tileset_id, api_key } => {
                &&& quadruple_of(source).0 == "https://api.mapbox.com/v4/"@ + tileset_id@ + seq!['/']
                &&& quadruple_of(source).1 == "?access_token="@ + api_key@
                &&& quadruple_of(source).2 == "map-iced/0.1.0"@
            },
            TileSource::MapBoxSatellite { api_key } => {
                &&& quadruple_of(source).0 == "https://api.mapbox.com/v4/mapbox.satellite/"@
                &&& quadruple_of(source).1 == "?access_token="@ + api_key@
                &&& quadruple_of(source).2 == "map-iced/0.1.0"@
            },
            TileSource::Thunderforest { style, api_key } => {
                &&& quadruple_of(source).0 == "https://api.thunderforest.com/"@ + style@ + seq!['/']
                &&& quadruple_of(source).1 == "?apikey="@ + api_key@
                &&& quadruple_of(source).2 == "map-iced/0.1.0"@
            },
        },
{
    reveal_strlit("https://");
    reveal_strlit("/");
    reveal_strlit("https://tile.openstreetmap.org/");
    reveal_strlit("https://maptiles.p.rapidapi.com/en/map/v1/");
    reveal_strlit("https://api.mapbox.com/v4/");
    reveal_strlit("https://api.mapbox.com/v4/mapbox.satellite/");
    reveal_strlit("https://api.thunderforest.com/");
    reveal_strlit("map-iced/0.1.0");
    reveal_strlit("");
    assert("/"@ =~= seq!['/']);
    assert(""@ =~= Seq::<char>::empty());
    match source {
        TileSource::FullyConstructed { .. } => {},
        TileSource::OpenStreetMap { .. } => {
            assert(quadruple_of(source).0.take(8) =~= "https://"@);
        },
        TileSource::MapTilesApi { .. } => {
            assert(quadruple_of(source).0.take(8) =~= "https://"@);
        },
        TileSource::MapBoxTiles { tileset_id, .. } => {
            let u = "https://api.mapbox.com/v4/"@ + tileset_id@ + "/"@;
            assert(u.take(8) =~= "https://"@);
        },
        TileSource::MapBoxSatellite { .. } => {
            assert(quadruple_of(source).0.take(8) =~= "https://"@);
        },
        TileSource::Thunderforest { style, .. } => {
            let u = "https://api.thunderforest.com/"@ + style@ + "/"@;
            assert(u.take(8) =~= "https://"@);
        },
    }
}

/// Where the cache lies: a fully constructed path as it is; a relative path, or the directory
/// `Tiles`, inside the system's cache directory; and an error when the system has none.
pub proof fn lemma_cache_location(dir: CachingDirectory, os_cache_dir: Option<Seq<char>>)
    ensures
        match dir {
            CachingDirectory::FullyConstructed(path) => cache_location(dir, os_cache_dir) == Ok::<
                (Option<Seq<char>>, Seq<char>),
                Seq<char>,
            >((None, path@)),
            CachingDirectory::CacheDirectory(path) => match os_cache_dir {
                Some(base) => cache_location(dir, os_cache_dir) == Ok::<
                    (Option<Seq<char>>, Seq<char>),
                    Seq<char>,
                >((Some(base), path@)),
                None => cache_location(dir, os_cache_dir) == Err::<
                    (Option<Seq<char>>, Seq<char>),
                    Seq<char>,
                >("Cache directory not found on system"@),
            },
            CachingDirectory::CacheDirFixed => match os_cache_dir {
                Some(base) => cache_location(dir, os_cache_dir) == Ok::<
                    (Option<Seq<char>>, Seq<char>),
                    Seq<char>,
                >((Some(base), "Tiles"@)),
                None => cache_location(dir, os_cache_dir) == Err::<
                    (Option<Seq<char>>, Seq<char>),
                    Seq<char>,
                >("Cache directory not found on system"@),
            },
        },
{
}
} // verus!
