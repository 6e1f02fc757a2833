# wiki_rs

A small wiki: pages are written in markdown, get an id on every heading and a
table of contents, and are shown as HTML with the list of recently written
pages, a side menu and their attached files. Users log in with a name and a
password and stay logged in for 24 hours.

The library (`src/`) is verified with Verus. Its contracts state what each
function computes, over character sequences and other mathematical values:

- `text`: substring replacement, splitting and joining text;
- `headings`: heading lines, their `{ #id }` attributes and the heading list;
- `markdown`: markdown to HTML, with the image, web-address and heading-anchor
  rewrites of the parsed events;
- `url`, `uuids`, `time`: percent-encoding of names, random UUIDs and their
  text, points in time and their RFC 3339 text;
- `usecases`, `models`: pages and users;
- `auth`: sessions, their lifetime, and the login token in the `Cookie` header;
- `gateways`, `controllers`: the record layout of the store, the page list
  ordered by recency, the editor and users pages, the attached-file lists, and
  what the request handlers decide.

Calls into `pulldown-cmark`, `urlencoding`, `uuid` and `chrono` go through
small functions whose contracts describe those crates.

`app/` is the server around the library: actix-web handlers, the JSON store
on disk, login tokens (`jsonwebtoken`), multipart uploads and TLS.
