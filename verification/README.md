# webdash

The verified core of a self-hosted service dashboard. A page lists the
services that running containers (through `dashboard.*` labels) and a
configured link list describe, grouped into sections, with a quick-search
panel and each service's favicon fetched on demand.

`src/` is the library, checked by Verus:

- `service.rs`: service records, validation of their links, services read
  from container labels, the logo address of a service.
- `index.rs`: the table from logo addresses to service URLs kept between a
  page render and the logo requests it causes.
- `page.rs`: the page layout: sections by group, rows by name, row texts and
  the summary line.
- `search.rs`: fuzzy scoring, the ranked result list, and the keyboard
  handling of the search panel.
- `html.rs`: the `<link>` tags of a home page and the icons they declare.
- `logo.rs`: image recognition, size-limited body reading, the URLs tried for
  an icon, and the reply to a logo request.
- `weburl.rs`, `encoding.rs`, `text.rs`: URLs (parsed by the `url` crate),
  URL-safe Base64, and character helpers.

`app/` is the server around it: configuration, Docker and HTTP I/O (reqwest,
axum, tokio) and HTML rendering (leptos).
