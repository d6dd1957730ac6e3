# crabbucket

A static site framework where the site is a typed value: a dead link, a page
with no title, a renamed design token or a base path that is wrong on a
project host is a build failure rather than something found in production.

The library in `src/` holds the logic, each function with a contract that
Verus proves:

- `text`, `sorting`: the character-level operations and the stable ordering
  everything else is stated over.
- `config`, `url`: the base path, normalised once and applied in one place.
- `content`, `directive`, `markdown`: splitting a content file into
  frontmatter and body, the `:::` directive scanner, and Markdown rendering.
- `links`, `paths`: resolving and checking every internal link, fragment
  and asset, with dead links reported in the order of their source paths.
- `site`, `theme`: where pages are written and what the navigation lists.
- `search`, `feed`, `og`, `style`, `tokens`, `routes`, `error`: the search
  index, RSS and Atom feeds, social cards, namespaced styles, design tokens,
  typed routes and diagnostics.
- `cli`, `scaffold`: the `crab` command line and the files a new site starts
  with.
- `ui`, `plain`, `bench`: what the two design systems accept, and the
  synthetic pages a build is timed on.

`app/` is the `crab` program around it: reading and writing files, the
markup of the two design systems, and the scaffold.  `tests/` runs the library
on concrete values.
