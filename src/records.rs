use vstd::prelude::*;

verus! {

/// Where a lot stands in its sale.
#[derive(PartialEq, Eq, Structural, Debug, Copy, Clone)]
pub enum LotStatus {
    Cancelled,
    Deleted,
    Drafted,
    ForSale,
    Pending,
    Sold,
    Archived,
}

impl LotStatus {
    pub open spec fn label(self) -> Seq<char> {
        match self {
            LotStatus::Cancelled => "cancelled sale"@,
            LotStatus::Deleted => "deleted"@,
            LotStatus::Drafted => "drafted"@,
            LotStatus::ForSale => "for sale"@,
            LotStatus::Pending => "pending sale"@,
            LotStatus::Sold => "sold"@,
            LotStatus::Archived => "archived"@,
        }
    }

    /// The label a lot's status is stored under.
    pub fn as_str(&self) -> (r: &'static str)
        ensures
            r@ == self.label(),
    {
        match self {
            LotStatus::Cancelled => "cancelled sale",
            LotStatus::Deleted => "deleted",
            LotStatus::Drafted => "drafted",
            LotStatus::ForSale => "for sale",
            LotStatus::Pending => "pending sale",
            LotStatus::Sold => "sold",
            LotStatus::Archived => "archived",
        }
    }
}

/// Where a recorded order stands.
#[derive(PartialEq, Eq, Structural, Debug, Copy, Clone)]
pub enum OrderStatus {
    Cancelled,
    Filled,
    PartiallyFilled,
    Opened,
}

/// The article a request names by its slug.
#[derive(Debug)]
pub struct ArticlePath {
    pub slug: String,
}

/// Filters for a list of articles.
#[derive(Debug)]
pub struct ArticlesParams {
    pub tag: Option<String>,
    pub author: Option<String>,
    pub favorited: Option<String>,
    /// Twenty when absent.
    pub limit: Option<usize>,
    /// Zero when absent.
    pub offset: Option<usize>,
}

/// Paging of a user's feed.
#[derive(Debug)]
pub struct FeedParams {
    pub limit: Option<usize>,
    pub offset: Option<usize>,
}

#[derive(Debug)]
pub struct CreateArticle {
    pub title: String,
    pub description: String,
    pub body: String,
    pub tag_list: Vec<String>,
}

#[derive(Debug)]
pub struct UpdateArticle {
    pub title: Option<String>,
    pub description: Option<String>,
    pub body: Option<String>,
    pub tag_list: Option<Vec<String>>,
}

/// A new asset for a user's portfolio.
#[derive(Debug)]
pub struct AddAssetRequest {
    pub id: String,
    pub title: String,
    pub description: String,
    pub image_url: String,
    pub qty: i32,
}

#[derive(Debug)]
pub struct AssetResponse {
    pub id: String,
    pub title: String,
    pub description: String,
    pub image_url: String,
}

#[derive(Debug)]
pub struct NewAsset {
    pub id: String,
    pub title: String,
    pub description: String,
    pub image_url: String,
}

#[derive(Debug)]
pub struct CreateLotImage {
    pub image_url: String,
    pub is_thumbnail: bool,
}

/// Filters for a page of lots.
#[derive(Debug)]
pub struct FilterLots {
    pub categories: Vec<String>,
    pub conditions: Vec<String>,
    pub terms: Vec<String>,
    pub page: Option<i32>,
    pub limit: Option<i32>,
    pub statuses: Vec<String>,
}

#[derive(Debug)]
pub struct ProfileResponse {
    pub profile: ProfileResponseInner,
}

#[derive(Debug)]
pub struct ProfileResponseInner {
    pub username: String,
    pub bio: Option<String>,
    pub image: Option<String>,
    pub following: bool,
}

#[derive(Debug)]
pub struct RegisterUser {
    pub username: String,
    pub email: String,
    pub password: String,
}

#[derive(Debug)]
pub struct LoginUser {
    pub email: String,
    pub password: String,
}

#[derive(Debug)]
pub struct FindUser {
    pub username: String,
}

#[derive(Debug)]
pub struct FindEmail {
    pub email: String,
}

#[derive(Debug)]
pub struct UpdateUser {
    pub username: Option<String>,
    pub email: Option<String>,
    pub password: Option<String>,
    pub bio: Option<String>,
    pub image: Option<String>,
}

#[derive(Debug)]
pub struct UserResponse {
    pub user: UserResponseInner,
}

#[derive(Debug)]
pub struct UserResponseInner {
    pub email: String,
    pub token: String,
    pub username: String,
    pub bio: Option<String>,
    pub image: Option<String>,
}

} // verus!
